//! Choices of the tracker around its neural modules: which candidate mask and token to keep, when
//! an object counts as present, and how a memory bank is laid out.
use crate::binary32::Binary32;
use crate::sam2::memory::integer_sqrt;
use crate::sam2::sam_heads::{stability, stability_score, STABILITY_THRESH};
use crate::sam3::masks::{any_covered, area, binarize};
use crate::text::{signed_decimal, signed_digits};
use vstd::prelude::*;
use vstd::string::{StrSliceExecFns, StringExecFns};

verus! {

/// The width of the tracker's tokens.
pub const HIDDEN: i32 = 256;

/// The number of mask candidates: one single mask and three alternatives.
pub const NUM_MASK_TOKENS: usize = 4;

/// The channels of the spatial memory.
pub const MEM_OUT_CHANNELS: i32 = 64;

/// The number of memory tokens that an object pointer is split into.
pub const POINTER_SPLITS: usize = 4;

/// The number of temporal encodings.
pub const NUM_TEMPORAL_ROWS: i32 = 7;

/// The side of the mask that the memory encoder reads.
pub const MASK_MEM_SIZE: i32 = 1152;

/// The logit of a frame on which the object is absent: minus one thousand and twenty-four.
pub const NO_OBJ_SCORE: u32 = 0xc480_0000;

/// The score of a seeded object that appears: ten.
pub const SEEN_SCORE: u32 = 0x4120_0000;

/// The score of a seeded object that does not appear: minus ten.
pub const UNSEEN_SCORE: u32 = 0xc120_0000;

/// The position that a scan keeps which moves on whenever a strictly greater value follows.
pub open spec fn first_greatest(v: Seq<Binary32>, n: nat) -> int
    decreases n,
{
    if n <= 1 {
        0
    } else {
        let best = first_greatest(v, (n - 1) as nat);
        if v[best].less(v[n - 1]) {
            n - 1
        } else {
            best
        }
    }
}

/// The position of the greatest value, the first of equals.
pub fn argmax(v: &[Binary32]) -> (r: usize)
    ensures
        r == first_greatest(v@, v@.len()),
        v@.len() > 0 ==> r < v@.len(),
        v@.len() == 0 ==> r == 0,
{
    let mut best: usize = 0;
    let mut i: usize = 1;
    while i < v.len()
        invariant
            1 <= i,
            v@.len() > 0 ==> i <= v@.len(),
            v@.len() == 0 ==> i == 1,
            best == first_greatest(v@, i as nat),
            best < i,
            best == 0 || best < v@.len(),
        decreases v@.len() - i,
    {
        if v[i].gt(&v[best]) {
            best = i;
        }
        i = i + 1;
    }
    best
}

/// Among numbers, nothing exceeds the chosen value, and everything before it is smaller.
pub proof fn first_greatest_dominates(v: Seq<Binary32>, n: nat)
    requires
        0 < n <= v.len(),
        forall|i: int| 0 <= i < n ==> !(#[trigger] v[i]).nan(),
    ensures
        0 <= first_greatest(v, n) < n,
        forall|i: int| 0 <= i < n ==> !v[first_greatest(v, n)].less(#[trigger] v[i]),
        forall|i: int|
            0 <= i < first_greatest(v, n) ==> (#[trigger] v[i]).less(v[first_greatest(v, n)]),
    decreases n,
{
    if n > 1 {
        first_greatest_dominates(v, (n - 1) as nat);
    }
}

/// The candidate for a request of a single mask: the single mask where it is stable, otherwise the
/// alternative with the greatest predicted overlap. `ious` predicts for all candidates.
pub fn dynamic_multimask_via_stability(single: &[Binary32], ious: &[Binary32]) -> (r: usize)
    requires
        ious@.len() > 1,
    ensures
        r < ious@.len(),
        r == (if (Binary32 { bits: STABILITY_THRESH }).at_most(stability(single@)) {
            0
        } else {
            1 + first_greatest(ious@.skip(1), (ious@.len() - 1) as nat)
        }),
        r == 0 <==> (Binary32 { bits: 0x3f7a_e148 }).at_most(stability(single@)),
{
    let mut alternatives: Vec<Binary32> = Vec::new();
    let mut i: usize = 1;
    while i < ious.len()
        invariant
            1 <= i <= ious@.len(),
            alternatives@ == ious@.subrange(1, i as int),
        decreases ious@.len() - i,
    {
        alternatives.push(ious[i]);
        i = i + 1;
        assert(alternatives@ =~= ious@.subrange(1, i as int));
    }
    assert(alternatives@ =~= ious@.skip(1));
    let best: usize = 1 + argmax(&alternatives);
    if stability_score(single).ge(&Binary32 { bits: STABILITY_THRESH }) {
        0
    } else {
        best
    }
}

/// Where an object pointer comes from.
#[derive(Clone, Copy, Debug, PartialEq, Eq, Structural)]
pub enum PointerSource {
    /// The projection of a mask token.
    Token { index: usize },
    /// The learned pointer of an absent object.
    NoObject,
}

/// The object is present: its score is positive.
pub open spec fn present(score: Binary32) -> bool {
    (Binary32 { bits: 0 }).less(score)
}

/// The pointer of an object: the projected token where it is present.
pub fn compute_object_pointer(token: usize, object_score: &Binary32) -> (r: PointerSource)
    ensures
        r == (if present(*object_score) {
            PointerSource::Token { index: token }
        } else {
            PointerSource::NoObject
        }),
        r is Token <==> 0 < object_score.bits <= 0x7f80_0000,
{
    if object_score.gt(&Binary32 { bits: 0 }) {
        PointerSource::Token { index: token }
    } else {
        PointerSource::NoObject
    }
}

/// What becomes of the candidates on a tracked frame.
#[derive(Clone, Copy, Debug, PartialEq, Eq, Structural)]
pub struct TrackedChoice {
    /// The alternative whose mask is kept; none where the object is absent and a uniform
    /// no-object mask takes its place.
    pub mask: Option<usize>,
    pub pointer: PointerSource,
}

/// Choose among the alternatives of a tracked frame: the one with the greatest predicted overlap
/// gives the mask and the pointer token. Tokens count the single mask first.
pub fn decode_tracked_frame(ious: &[Binary32], object_score: &Binary32) -> (r: TrackedChoice)
    requires
        0 < ious@.len() < usize::MAX,
    ensures
        ({
            let best = first_greatest(ious@, ious@.len());
            &&& 0 <= best < ious@.len()
            &&& r.mask == if present(*object_score) {
                Some(best as usize)
            } else {
                None
            }
            &&& r.pointer == if present(*object_score) {
                PointerSource::Token { index: (best + 1) as usize }
            } else {
                PointerSource::NoObject
            }
        }),
        r.mask is Some <==> 0 < object_score.bits <= 0x7f80_0000,
        r.pointer is Token <==> 0 < object_score.bits <= 0x7f80_0000,
{
    let best: usize = argmax(ious);
    let pointer = compute_object_pointer(best + 1, object_score);
    let mask: Option<usize> = if object_score.gt(&Binary32 { bits: 0 }) {
        Some(best)
    } else {
        None
    };
    TrackedChoice { mask, pointer }
}

/// What becomes of a frame that a detection seeds.
#[derive(Clone, Copy, Debug, PartialEq, Eq, Structural)]
pub struct SeedChoice {
    pub pointer: PointerSource,
    pub object_score: Binary32,
}

/// Choose pointer and score of a frame that a detection mask seeds: the pointer is that of the best
/// alternative where both the decoder and the mask show the object; the score goes by the mask
/// alone.
pub fn decode_mask_conditioning_frame(
    mask: &[Binary32],
    ious: &[Binary32],
    decoder_score: &Binary32,
) -> (r: SeedChoice)
    requires
        0 < ious@.len() < usize::MAX,
    ensures
        r.pointer == (if area(mask@) > 0 && present(*decoder_score) {
            PointerSource::Token { index: (first_greatest(ious@, ious@.len()) + 1) as usize }
        } else {
            PointerSource::NoObject
        }),
        r.object_score == (if area(mask@) > 0 {
            Binary32 { bits: SEEN_SCORE }
        } else {
            Binary32 { bits: UNSEEN_SCORE }
        }),
        r.object_score.bits == (if area(mask@) > 0 {
            0x4120_0000u32
        } else {
            0xc120_0000u32
        }),
{
    let shape: Vec<bool> = binarize(mask);
    let appears = any_covered(&shape);
    let best: usize = argmax(ious);
    let inner = compute_object_pointer(best + 1, decoder_score);
    if appears {
        SeedChoice { pointer: inner, object_score: Binary32 { bits: SEEN_SCORE } }
    } else {
        SeedChoice {
            pointer: PointerSource::NoObject,
            object_score: Binary32 { bits: UNSEEN_SCORE },
        }
    }
}

/// The candidate that a prompted frame keeps.
#[derive(Clone, Copy, Debug, PartialEq, Eq, Structural)]
pub struct SegmentChoice {
    /// The candidate among all four, the single mask first.
    pub candidate: usize,
    /// Its predicted overlap.
    pub iou: Binary32,
}

/// The candidate of a prompted frame: the alternative with the greatest predicted overlap, or for
/// a request of a single mask the one that stability chooses.
pub open spec fn segment_candidate(
    single: Seq<Binary32>,
    ious: Seq<Binary32>,
    multimask: bool,
) -> int {
    if multimask || !(Binary32 { bits: STABILITY_THRESH }).at_most(stability(single)) {
        1 + first_greatest(ious.skip(1), (ious.len() - 1) as nat)
    } else {
        0
    }
}

/// Choose the mask of a prompted frame. `ious` predicts for all candidates, the single mask first.
pub fn segment_encoded_multimask(
    single: &[Binary32],
    ious: &[Binary32],
    multimask: bool,
) -> (r: SegmentChoice)
    requires
        ious@.len() > 1,
    ensures
        r.candidate < ious@.len(),
        r.candidate == segment_candidate(single@, ious@, multimask),
        r.iou == ious@[r.candidate as int],
{
    let candidate: usize = if multimask {
        let mut alternatives: Vec<Binary32> = Vec::new();
        let mut i: usize = 1;
        while i < ious.len()
            invariant
                1 <= i <= ious@.len(),
                alternatives@ == ious@.subrange(1, i as int),
            decreases ious@.len() - i,
        {
            alternatives.push(ious[i]);
            i = i + 1;
            assert(alternatives@ =~= ious@.subrange(1, i as int));
        }
        assert(alternatives@ =~= ious@.skip(1));
        1 + argmax(&alternatives)
    } else {
        dynamic_multimask_via_stability(single, ious)
    };
    SegmentChoice { candidate, iou: ious[candidate] }
}

/// Choose the mask of a prompted frame among the alternatives.
pub fn segment_encoded(single: &[Binary32], ious: &[Binary32]) -> (r: SegmentChoice)
    requires
        ious@.len() > 1,
    ensures
        r.candidate < ious@.len(),
        r.candidate == segment_candidate(single@, ious@, true),
        r.iou == ious@[r.candidate as int],
{
    segment_encoded_multimask(single, ious, true)
}

/// Why the tracker refuses its input.
#[derive(Clone, Copy, Debug, PartialEq, Eq, Structural)]
pub enum TrackerError {
    /// The number of image tokens is not a square; `g` is the nearest side.
    NotSquare { seq: i32, g: i32 },
    /// The rotated keys are not a whole number of query lengths.
    KeyLength { n_rot: i32, q_seq: i32 },
}

impl TrackerError {
    /// The complaint in words.
    pub open spec fn text(self) -> Seq<char> {
        match self {
            TrackerError::NotSquare { seq, g } => "sam3 tracker: vision feature length "@
                + signed_digits(seq as int) + " is not a perfect square (g="@ + signed_digits(
                g as int,
            ) + ")"@,
            TrackerError::KeyLength { n_rot, q_seq } => "sam3 tracker: rope key length "@
                + signed_digits(n_rot as int) + " is not a multiple of query length "@
                + signed_digits(q_seq as int),
        }
    }

    /// This complaint in words.
    pub fn message(&self) -> (r: String)
        ensures
            r@ == self.text(),
    {
        match self {
            TrackerError::NotSquare { seq, g } => {
                let mut r: String = "sam3 tracker: vision feature length ".to_owned();
                r.append(signed_decimal(*seq).as_str());
                r.append(" is not a perfect square (g=");
                r.append(signed_decimal(*g).as_str());
                r.append(")");
                r
            },
            TrackerError::KeyLength { n_rot, q_seq } => {
                let mut r: String = "sam3 tracker: rope key length ".to_owned();
                r.append(signed_decimal(*n_rot).as_str());
                r.append(" is not a multiple of query length ");
                r.append(signed_decimal(*q_seq).as_str());
                r
            },
        }
    }
}

/// `g` is the integer nearest to the square root of `n`.
pub open spec fn nearest_root(n: int, g: int) -> bool {
    &&& 0 <= g
    &&& g * g - g < n || n == 0 && g == 0
    &&& n <= g * g + g
}

/// The side of the square grid with this many tokens.
pub fn vision_grid(seq: i32) -> (r: Result<i32, TrackerError>)
    requires
        0 <= seq,
    ensures
        match r {
            Ok(g) => 0 <= g && g * g == seq,
            Err(e) => exists|g: i32|
                #[trigger] nearest_root(seq as int, g as int) && g * g != seq && e == (
                TrackerError::NotSquare { seq, g }),
        },
{
    let low: u32 = integer_sqrt(seq as u32);
    proof {
        assert(low <= 46340) by (nonlinear_arith)
            requires
                low * low <= 0x7fff_ffff,
        ;
        assert(low * low + low <= 46340 * 46340 + 46340) by (nonlinear_arith)
            requires
                low <= 46340,
        ;
        assert((low + 1) * (low + 1) == low * low + 2 * low + 1) by (nonlinear_arith);
    }
    let g: i32 = if seq as u32 > low * low + low {
        low as i32 + 1
    } else {
        low as i32
    };
    proof {
        let (gi, li, n) = (g as int, low as int, seq as int);
        if gi == li + 1 {
            assert(gi * gi - gi == li * li + li && gi * gi + gi >= (li + 1) * (li + 1))
                by (nonlinear_arith)
                requires
                    gi == li + 1,
                    li >= 0,
            ;
            assert(gi * gi - gi < n && n <= gi * gi + gi);
        } else {
            assert(gi * gi == li * li) by (nonlinear_arith)
                requires
                    gi == li,
            ;
            assert(li == 0 ==> n == 0) by (nonlinear_arith)
                requires
                    0 <= n < (li + 1) * (li + 1),
            ;
        }
        assert(nearest_root(n, gi));
    }
    proof {
        assert(0 <= g * g <= 46341 * 46341) by (nonlinear_arith)
            requires
                0 <= g <= 46341,
        ;
    }
    let square: i64 = g as i64 * g as i64;
    if square != seq as i64 {
        return Err(TrackerError::NotSquare { seq, g });
    }
    Ok(g)
}

/// The row of the temporal encoding for a memory at an offset: the one before the offset, and the
/// last for offset zero.
pub open spec fn temporal_row(offset: int) -> int {
    (offset - 1) % (NUM_TEMPORAL_ROWS as int)
}

/// How a memory bank is laid out.
pub struct MemoryLayout {
    /// Per spatial memory, the row of the temporal encoding.
    pub temporal_rows: Vec<i32>,
    /// The span by which pointer offsets are divided.
    pub max_temporal_diff: i32,
    /// The number of tokens at the end of the bank that come from object pointers.
    pub num_object_pointer_tokens: usize,
}

/// The layout of a memory bank.
pub open spec fn laid_out(
    spatial: Seq<(i32, u64, u64)>,
    pointers: Seq<(i32, u64)>,
    max_object_pointers_to_use: i32,
    l: MemoryLayout,
) -> bool {
    &&& l.temporal_rows@.len() == spatial.len()
    &&& forall|i: int|
        0 <= i < spatial.len() ==> #[trigger] l.temporal_rows@[i] == temporal_row(
            spatial[i].0 as int,
        )
    &&& l.max_temporal_diff == (if max_object_pointers_to_use - 1 > 1 {
        max_object_pointers_to_use - 1
    } else {
        1
    })
    &&& l.num_object_pointer_tokens == POINTER_SPLITS * pointers.len()
}

/// Lay out the memory bank of a frame.
pub fn layout_memory(
    spatial: &[(i32, u64, u64)],
    pointers: &[(i32, u64)],
    max_object_pointers_to_use: i32,
) -> (r: MemoryLayout)
    requires
        forall|i: int| 0 <= i < spatial@.len() ==> (#[trigger] spatial@[i]).0 > i32::MIN,
        i32::MIN < max_object_pointers_to_use,
        pointers@.len() * 4 <= usize::MAX,
    ensures
        laid_out(spatial@, pointers@, max_object_pointers_to_use, r),
{
    let mut temporal_rows: Vec<i32> = Vec::new();
    let mut i: usize = 0;
    while i < spatial.len()
        invariant
            i <= spatial@.len(),
            forall|i: int| 0 <= i < spatial@.len() ==> (#[trigger] spatial@[i]).0 > i32::MIN,
            temporal_rows@.len() == i,
            forall|k: int|
                0 <= k < i ==> #[trigger] temporal_rows@[k] == temporal_row(spatial@[k].0 as int),
        decreases spatial@.len() - i,
    {
        let offset: i32 = spatial[i].0;
        let row: i32 = wrapped_row(offset - 1);
        temporal_rows.push(row);
        i = i + 1;
    }
    let less: i32 = max_object_pointers_to_use - 1;
    let max_temporal_diff: i32 = if less > 1 {
        less
    } else {
        1
    };
    MemoryLayout {
        temporal_rows,
        max_temporal_diff,
        num_object_pointer_tokens: POINTER_SPLITS * pointers.len(),
    }
}

/// What conditioning a frame on its memory takes.
pub struct FeatureConditioning {
    /// The side of the map that the conditioned tokens form.
    pub grid: i32,
    pub layout: MemoryLayout,
}

/// Plan the conditioning of the `seq` tokens of a frame on a memory bank; an error where the tokens
/// do not form a square map.
pub fn prepare_memory_conditioned_features(
    seq: i32,
    spatial: &[(i32, u64, u64)],
    pointers: &[(i32, u64)],
    max_object_pointers_to_use: i32,
) -> (r: Result<FeatureConditioning, TrackerError>)
    requires
        0 <= seq,
        forall|i: int| 0 <= i < spatial@.len() ==> (#[trigger] spatial@[i]).0 > i32::MIN,
        i32::MIN < max_object_pointers_to_use,
        pointers@.len() * 4 <= usize::MAX,
    ensures
        match r {
            Ok(c) => {
                &&& 0 <= c.grid && c.grid * c.grid == seq
                &&& laid_out(spatial@, pointers@, max_object_pointers_to_use, c.layout)
            },
            Err(e) => exists|g: i32|
                #[trigger] nearest_root(seq as int, g as int) && g * g != seq && e == (
                TrackerError::NotSquare { seq, g }),
        },
{
    match vision_grid(seq) {
        Ok(grid) => Ok(
            FeatureConditioning {
                grid,
                layout: layout_memory(spatial, pointers, max_object_pointers_to_use),
            },
        ),
        Err(e) => Err(e),
    }
}

/// The remainder by the number of temporal rows that is never negative.
fn wrapped_row(x: i32) -> (r: i32)
    ensures
        r == x as int % (NUM_TEMPORAL_ROWS as int),
{
    if x >= 0 {
        x % NUM_TEMPORAL_ROWS
    } else {
        // One less than the distance below zero, counted down from the last row.
        let below: i32 = -(x + 1);
        let row: i32 = NUM_TEMPORAL_ROWS - 1 - below % NUM_TEMPORAL_ROWS;
        proof {
            let (b, q) = (below as int, below as int / 7);
            assert(b == 7 * q + b % 7);
            assert(x == (-(q + 1)) * 7 + (6 - b % 7));
            vstd::arithmetic::div_mod::lemma_fundamental_div_mod_converse(
                x as int,
                7,
                -(q + 1),
                6 - b % 7,
            );
        }
        row
    }
}

/// Within the span of the memory each offset has a row of its own.
pub proof fn temporal_rows_are_distinct(a: int, b: int)
    requires
        0 <= a < b < NUM_TEMPORAL_ROWS,
    ensures
        temporal_row(a) != temporal_row(b),
        temporal_row(0) == NUM_TEMPORAL_ROWS - 1,
        0 <= temporal_row(a) < NUM_TEMPORAL_ROWS,
{
}

/// How often the position tables repeat along the rotated keys.
pub fn rope_key_repeats(seq_k: i32, num_k_exclude: i32, q_seq: i32, repeat_freqs_k: bool) -> (r:
    Result<i32, TrackerError>)
    requires
        0 <= num_k_exclude <= seq_k,
        0 <= q_seq,
    ensures
        ({
            let n_rot = seq_k - num_k_exclude;
            let whole = q_seq != 0 && n_rot % (q_seq as int) == 0;
            match r {
                Ok(rf) => if repeat_freqs_k && n_rot != q_seq {
                    whole && rf == n_rot / (q_seq as int)
                } else {
                    rf == 1
                },
                Err(e) => repeat_freqs_k && n_rot != q_seq && !whole && e == (
                TrackerError::KeyLength { n_rot: n_rot as i32, q_seq }),
            }
        }),
{
    let n_rot: i32 = seq_k - num_k_exclude;
    if repeat_freqs_k && n_rot != q_seq {
        if q_seq == 0 || n_rot % q_seq != 0 {
            return Err(TrackerError::KeyLength { n_rot, q_seq });
        }
        return Ok(n_rot / q_seq);
    }
    Ok(1)
}

/// Where the tables repeat, they have one row for every rotated key.
pub proof fn repeated_tables_cover_the_keys(n_rot: int, q_seq: int)
    requires
        q_seq > 0,
        n_rot % q_seq == 0,
    ensures
        (n_rot / q_seq) * q_seq == n_rot,
{
    vstd::arithmetic::div_mod::lemma_fundamental_div_mod(n_rot, q_seq);
    assert((n_rot / q_seq) * q_seq == q_seq * (n_rot / q_seq)) by (nonlinear_arith);
}

/// How the mask of a frame is prepared for the memory encoder.
#[derive(Clone, Copy, Debug, PartialEq, Eq, Structural)]
pub struct MaskPreparation {
    /// The mask has to be resized.
    pub resize: bool,
    /// The mask is thresholded; otherwise it passes through the sigmoid.
    pub binarize: bool,
}

/// Choose the preparation of a mask of this size for the memory encoder.
pub fn prepare_mask_for_mem(in_h: i32, in_w: i32, is_mask_from_pts: bool) -> (r: MaskPreparation)
    ensures
        r.resize == !(in_h == MASK_MEM_SIZE && in_w == MASK_MEM_SIZE),
        r.binarize == is_mask_from_pts,
        r.resize <==> in_h != 1152 || in_w != 1152,
{
    MaskPreparation {
        resize: !(in_h == MASK_MEM_SIZE && in_w == MASK_MEM_SIZE),
        binarize: is_mask_from_pts,
    }
}

/// How a frame becomes a memory.
#[derive(Clone, Copy, Debug, PartialEq, Eq, Structural)]
pub struct MemoryEncoding {
    pub mask: MaskPreparation,
    /// The occlusion embedding is added to the memory: the object is not there.
    pub add_occlusion: bool,
}

/// Choose how a mask and its score become a memory.
pub fn encode_new_memory(
    in_h: i32,
    in_w: i32,
    object_score: &Binary32,
    is_mask_from_pts: bool,
) -> (r: MemoryEncoding)
    ensures
        r.mask.resize == !(in_h == MASK_MEM_SIZE && in_w == MASK_MEM_SIZE),
        r.mask.binarize == is_mask_from_pts,
        r.add_occlusion == object_score.at_most(Binary32 { bits: 0 }),
        r.mask.resize <==> in_h != 1152 || in_w != 1152,
{
    MemoryEncoding {
        mask: prepare_mask_for_mem(in_h, in_w, is_mask_from_pts),
        add_occlusion: object_score.le(&Binary32 { bits: 0 }),
    }
}

/// Neighbouring lanes `(a, b)` become `(-b, a)`.
pub open spec fn rotated(x: Seq<Binary32>) -> Seq<Binary32> {
    Seq::new(
        x.len(),
        |i: int|
            if i % 2 == 0 {
                x[i + 1].negated()
            } else {
                x[i - 1]
            },
    )
}

/// Rotate neighbouring lanes by a quarter turn.
pub fn rotate_pairwise(x: &[Binary32]) -> (r: Vec<Binary32>)
    requires
        x@.len() % 2 == 0,
    ensures
        r@ == rotated(x@),
{
    let n: usize = x.len();
    let mut r: Vec<Binary32> = Vec::new();
    let mut i: usize = 0;
    while i < n
        invariant
            i <= n == x@.len(),
            n % 2 == 0,
            r@ == rotated(x@).take(i as int),
        decreases n - i,
    {
        if i % 2 == 0 {
            r.push(x[i + 1].neg());
        } else {
            r.push(x[i - 1]);
        }
        i = i + 1;
        assert(r@ =~= rotated(x@).take(i as int));
    }
    assert(r@ =~= rotated(x@));
    r
}

/// Two quarter turns negate every lane.
pub proof fn rotating_twice_negates(x: Seq<Binary32>)
    requires
        x.len() % 2 == 0,
    ensures
        rotated(rotated(x)) == x.map_values(|v: Binary32| v.negated()),
{
    assert(rotated(rotated(x)) =~= x.map_values(|v: Binary32| v.negated()));
}

/// A stable single mask is kept unless several were asked for: then, and for a mask whose stability
/// is below ninety-eight hundredths, the alternative with the greatest predicted overlap is taken,
/// the first of equals.
pub proof fn segments_take_the_best_mask(
    single: Seq<Binary32>,
    ious: Seq<Binary32>,
    multimask: bool,
)
    requires
        ious.len() > 1,
        forall|i: int| 1 <= i < ious.len() ==> !(#[trigger] ious[i]).nan(),
    ensures
        ({
            let r = segment_candidate(single, ious, multimask);
            let stable = (Binary32 { bits: 0x3f7a_e148 }).at_most(stability(single));
            &&& !multimask && stable ==> r == 0
            &&& multimask || !stable ==> 1 <= r < ious.len()
            &&& multimask || !stable ==> forall|i: int|
                1 <= i < ious.len() ==> (#[trigger] ious[i]).at_most(ious[r])
            &&& multimask || !stable ==> forall|i: int|
                1 <= i < r ==> (#[trigger] ious[i]).less(ious[r])
        }),
{
    let v = ious.skip(1);
    assert forall|i: int| 0 <= i < v.len() implies !(#[trigger] v[i]).nan() by {
        assert(v[i] == ious[i + 1]);
    }
    first_greatest_dominates(v, v.len());
    let b = first_greatest(v, v.len());
    assert(v[b] == ious[b + 1]);
    assert forall|i: int| 1 <= i < ious.len() implies (#[trigger] ious[i]).at_most(
        ious[b + 1],
    ) by {
        assert(v[i - 1] == ious[i]);
        assert(!v[b].less(v[i - 1]));
    }
    assert forall|i: int| 1 <= i < b + 1 implies (#[trigger] ious[i]).less(ious[b + 1]) by {
        assert(v[i - 1] == ious[i]);
    }
}

/// An object is present where its score is above zero.
pub proof fn presence_is_a_positive_score(score: Binary32)
    ensures
        present(score) <==> 0 < score.bits <= 0x7f80_0000,
{
}

/// The memory of a frame one to six steps back is marked by a row of its own, nearest first, and a
/// prompted frame by the last row.
pub proof fn temporal_rows_follow_the_distance(
    spatial: Seq<(i32, u64, u64)>,
    pointers: Seq<(i32, u64)>,
    max_object_pointers: i32,
    l: MemoryLayout,
    i: int,
)
    requires
        laid_out(spatial, pointers, max_object_pointers, l),
        0 <= i < spatial.len(),
        0 <= spatial[i].0 <= 6,
    ensures
        l.temporal_rows@.len() == spatial.len(),
        spatial[i].0 == 0 ==> l.temporal_rows@[i] == 6,
        spatial[i].0 > 0 ==> l.temporal_rows@[i] == spatial[i].0 - 1,
        l.num_object_pointer_tokens == 4 * pointers.len(),
        max_object_pointers > 2 ==> l.max_temporal_diff == max_object_pointers - 1,
        max_object_pointers <= 2 ==> l.max_temporal_diff == 1,
{
    assert(l.temporal_rows@[i] == temporal_row(spatial[i].0 as int));
}

/// Each pair is turned by a quarter: `(a, b)` becomes `(-b, a)`.
pub proof fn pairs_turn_by_a_quarter(x: Seq<Binary32>, i: int)
    requires
        x.len() % 2 == 0,
        0 <= i,
        2 * i + 1 < x.len(),
    ensures
        rotated(x).len() == x.len(),
        rotated(x)[2 * i] == x[2 * i + 1].negated(),
        rotated(x)[2 * i + 1] == x[2 * i],
{
}

/// What is said of features and keys that do not fit.
pub proof fn misfits_in_words(a: i32, b: i32)
    ensures
        (TrackerError::NotSquare { seq: a, g: b }).text()
            == "sam3 tracker: vision feature length "@ + signed_digits(a as int)
            + " is not a perfect square (g="@ + signed_digits(b as int) + ")"@,
        (TrackerError::KeyLength { n_rot: a, q_seq: b }).text() == "sam3 tracker: rope key length "@
            + signed_digits(a as int) + " is not a multiple of query length "@ + signed_digits(
            b as int,
        ),
{
}

} // verus!
