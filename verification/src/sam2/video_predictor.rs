//! The single-object video predictor.
//!
//! A clip is prompted on one or more frames and then propagated forward; each frame that is not
//! prompted is conditioned on the memory of the frames behind it. Arrays stay with the tensor
//! backend: the state holds the handles under which the backend keeps them, and says which
//! inference to run and on what.
use crate::binary32::Binary32;
use crate::collect::{
    in_order, in_order_of_finite, ordered_keys, picked, picked_complete, picked_length,
    picked_sound, tally_bounds,
};
use crate::text::{decimal, digits};
use std::collections::BTreeMap;
use vstd::prelude::*;
use vstd::string::{StrSliceExecFns, StringExecFns};

verus! {

broadcast use vstd::laws_cmp::group_laws_cmp;

/// The side of the square that frames are scaled to.
pub const IMAGE_SIZE: i32 = 1024;

/// The number of frames that spatial memory spans.
pub const NUM_MASKMEM: i32 = 7;

/// The number of object pointers that a frame attends to.
pub const MAX_OBJ_PTRS: i32 = 16;

/// The stride in frames between spatial memories.
pub const MEM_STRIDE: i32 = 1;

/// The number of memory tokens that an object pointer is split into.
pub const TOKENS_PER_POINTER: usize = 4;

/// The largest frame index, and the smallest, from which memory offsets stay in range.
pub const FRAME_LIMIT: i32 = 0x7fff_fff0;

/// The largest logit of a mask that is fed back as a prompt: thirty-two.
pub const PROMPT_LIMIT: u32 = 0x4200_0000;

/// The smallest logit of a mask that is fed back as a prompt: minus thirty-two.
pub const NEGATIVE_PROMPT_LIMIT: u32 = 0xc200_0000;

/// One frame's output, by the handles of its arrays.
#[derive(Clone, Copy, Debug, PartialEq, Eq, Structural)]
pub struct FrameOut {
    pub pred_masks: u64,
    pub obj_ptr: u64,
    pub object_score_logits: u64,
    /// The encoded memory, absent until the frame has been encoded.
    pub maskmem_features: Option<u64>,
    /// The position encoding of the memory, absent until the frame has been encoded.
    pub maskmem_pos_enc: Option<u64>,
}

/// The frame that spatial memory slot `t_pos` reads: slot six reads the frame next to the current
/// one, and each slot below it one frame farther.
pub open spec fn slot_frame(current: int, t_pos: int, track_in_reverse: bool) -> int {
    if track_in_reverse {
        current + (NUM_MASKMEM - t_pos)
    } else {
        current - (NUM_MASKMEM - t_pos)
    }
}

/// The frame that a spatial memory slot reads.
pub fn maskmem_prev_frame(current: i32, t_pos: i32, track_in_reverse: bool) -> (r: i32)
    requires
        1 <= t_pos < NUM_MASKMEM,
        -FRAME_LIMIT <= current <= FRAME_LIMIT,
    ensures
        r == slot_frame(current as int, t_pos as int, track_in_reverse),
        r == if track_in_reverse {
            current + (7 - t_pos)
        } else {
            current - (7 - t_pos)
        },
{
    let t_rel: i32 = NUM_MASKMEM - t_pos;
    if t_rel == 1 {
        if track_in_reverse {
            current + t_rel
        } else {
            current - t_rel
        }
    } else if track_in_reverse {
        let base: i32 = (current + 2) / MEM_STRIDE * MEM_STRIDE;
        base + (t_rel - 2) * MEM_STRIDE
    } else {
        let base: i32 = (current - 2) / MEM_STRIDE * MEM_STRIDE;
        base - (t_rel - 2) * MEM_STRIDE
    }
}

/// What a frame is conditioned on.
pub enum Conditioning {
    /// No frame has an encoded memory: the no-memory embedding stands in.
    NoMemory,
    /// The memory bank to attend to.
    Memory {
        /// Per spatial memory: the row of the temporal encoding, the features, their positions.
        spatial: Vec<(i32, u64, u64)>,
        /// The signed temporal distance of each object pointer.
        distances: Vec<i32>,
        pointers: Vec<u64>,
        /// The number of tokens at the end of the bank that come from object pointers.
        num_pointer_tokens: usize,
    },
}

/// The state of a clip: the outputs on prompted and on propagated frames.
pub struct VideoState {
    pub num_frames: i32,
    pub video_h: u32,
    pub video_w: u32,
    /// Outputs on prompted frames.
    pub cond: BTreeMap<i32, FrameOut>,
    /// Outputs on propagated frames.
    pub non_cond: BTreeMap<i32, FrameOut>,
    /// The prompts: point coordinates and labels.
    pub points: BTreeMap<i32, (u64, u64)>,
    /// The frames that propagation has passed, and whether in reverse.
    pub frames_tracked: BTreeMap<i32, bool>,
    /// The image features of prompted frames whose memory is not encoded yet.
    pub encoded: BTreeMap<i32, u64>,
}

/// The state as mathematical values.
#[verifier::ext_equal]
pub struct Clip {
    pub num_frames: i32,
    pub video_h: u32,
    pub video_w: u32,
    pub cond: Map<i32, FrameOut>,
    pub non_cond: Map<i32, FrameOut>,
    pub points: Map<i32, (u64, u64)>,
    pub frames_tracked: Map<i32, bool>,
    pub encoded: Map<i32, u64>,
}

impl View for VideoState {
    type V = Clip;

    open spec fn view(&self) -> Clip {
        Clip {
            num_frames: self.num_frames,
            video_h: self.video_h,
            video_w: self.video_w,
            cond: self.cond@,
            non_cond: self.non_cond@,
            points: self.points@,
            frames_tracked: self.frames_tracked@,
            encoded: self.encoded@,
        }
    }
}

/// The memory of the output has been encoded.
pub open spec fn has_memory(out: FrameOut) -> bool {
    out.maskmem_features is Some && out.maskmem_pos_enc is Some
}

/// The row of the temporal encoding for a memory slot, and the memory.
pub open spec fn slot_memory(out: FrameOut, t_pos: int) -> (i32, u64, u64) {
    (
        (NUM_MASKMEM - t_pos - 1) as i32,
        out.maskmem_features->0,
        out.maskmem_pos_enc->0,
    )
}

pub open spec fn prompted_has_memory(clip: Clip, keys: Seq<i32>) -> spec_fn(int) -> bool {
    |k: int| has_memory(clip.cond[keys[k]])
}

pub open spec fn prompted_memory(clip: Clip, keys: Seq<i32>) -> spec_fn(int) -> (i32, u64, u64) {
    |k: int| slot_memory(clip.cond[keys[k]], 0)
}

/// The frame in the slot that comes `s`-th.
pub open spec fn nth_slot_frame(frame_idx: i32, s: int, reverse: bool) -> i32 {
    slot_frame(frame_idx as int, s + 1, reverse) as i32
}

pub open spec fn slot_has_memory(clip: Clip, frame_idx: i32, reverse: bool) -> spec_fn(
    int,
) -> bool {
    |s: int|
        clip.non_cond.contains_key(nth_slot_frame(frame_idx, s, reverse)) && has_memory(
            clip.non_cond[nth_slot_frame(frame_idx, s, reverse)],
        )
}

pub open spec fn nth_slot_memory(clip: Clip, frame_idx: i32, reverse: bool) -> spec_fn(int) -> (
    i32,
    u64,
    u64,
) {
    |s: int| slot_memory(clip.non_cond[nth_slot_frame(frame_idx, s, reverse)], s + 1)
}

/// The spatial memories of a frame: every prompted frame that has one, then the slots.
pub open spec fn spatial_bank(clip: Clip, frame_idx: i32, reverse: bool) -> Seq<(i32, u64, u64)> {
    let keys = in_order(clip.cond.dom());
    picked(keys.len(), prompted_has_memory(clip, keys), prompted_memory(clip, keys)) + picked(
        (NUM_MASKMEM - 1) as nat,
        slot_has_memory(clip, frame_idx, reverse),
        nth_slot_memory(clip, frame_idx, reverse),
    )
}

pub open spec fn in_past(keys: Seq<i32>, frame_idx: i32, reverse: bool) -> spec_fn(int) -> bool {
    |k: int|
        if reverse {
            keys[k] >= frame_idx
        } else {
            keys[k] <= frame_idx
        }
}

/// Temporal distance and pointer of a prompted frame.
pub open spec fn prompted_pointer(
    clip: Clip,
    keys: Seq<i32>,
    frame_idx: i32,
    reverse: bool,
) -> spec_fn(int) -> (i32, u64) {
    |k: int|
        (
            if reverse {
                (keys[k] - frame_idx) as i32
            } else {
                (frame_idx - keys[k]) as i32
            },
            clip.cond[keys[k]].obj_ptr,
        )
}

/// The frame `d` plus one steps back, in the direction of tracking.
pub open spec fn stepped_back(frame_idx: i32, d: int, reverse: bool) -> i32 {
    if reverse {
        (frame_idx + (d + 1)) as i32
    } else {
        (frame_idx - (d + 1)) as i32
    }
}

pub open spec fn propagated_back(clip: Clip, frame_idx: i32, reverse: bool) -> spec_fn(
    int,
) -> bool {
    |d: int| clip.non_cond.contains_key(stepped_back(frame_idx, d, reverse))
}

pub open spec fn propagated_pointer(clip: Clip, frame_idx: i32, reverse: bool) -> spec_fn(
    int,
) -> (i32, u64) {
    |d: int| ((d + 1) as i32, clip.non_cond[stepped_back(frame_idx, d, reverse)].obj_ptr)
}

/// All object pointers behind a frame: prompted frames, then propagated ones from the nearest on.
pub open spec fn all_pointers(clip: Clip, frame_idx: i32, reverse: bool) -> Seq<(i32, u64)> {
    let keys = in_order(clip.cond.dom());
    picked(
        keys.len(),
        in_past(keys, frame_idx, reverse),
        prompted_pointer(clip, keys, frame_idx, reverse),
    ) + picked(
        (MAX_OBJ_PTRS - 1) as nat,
        propagated_back(clip, frame_idx, reverse),
        propagated_pointer(clip, frame_idx, reverse),
    )
}

/// The object pointers that a frame attends to: no more than the limit.
pub open spec fn pointer_bank(clip: Clip, frame_idx: i32, reverse: bool) -> Seq<(i32, u64)> {
    let all = all_pointers(clip, frame_idx, reverse);
    if all.len() <= MAX_OBJ_PTRS {
        all
    } else {
        all.take(MAX_OBJ_PTRS as int)
    }
}

/// What a frame is conditioned on.
pub open spec fn conditioned(clip: Clip, frame_idx: i32, reverse: bool, c: Conditioning) -> bool {
    let spatial_goal = spatial_bank(clip, frame_idx, reverse);
    let pointer_goal = pointer_bank(clip, frame_idx, reverse);
    match c {
        Conditioning::NoMemory => spatial_goal.len() == 0,
        Conditioning::Memory { spatial, distances, pointers, num_pointer_tokens } => {
            &&& spatial_goal.len() > 0
            &&& spatial@ == spatial_goal
            &&& distances@ == pointer_goal.map_values(|e: (i32, u64)| e.0)
            &&& pointers@ == pointer_goal.map_values(|e: (i32, u64)| e.1)
            &&& num_pointer_tokens == TOKENS_PER_POINTER * pointer_goal.len()
        },
    }
}

/// Frame indices from which memory offsets stay in range.
pub open spec fn frames_in_range(m: Set<i32>) -> bool {
    forall|k: i32| #[trigger] m.contains(k) ==> 0 <= k <= FRAME_LIMIT
}

impl Clip {
    /// Entries lie at frames in range, no frame is both prompted and propagated, the two halves of
    /// a prompted frame's memory come together, and image features are kept only for prompted
    /// frames whose memory is not encoded yet.
    pub open spec fn valid(self) -> bool {
        &&& frames_in_range(self.cond.dom())
        &&& frames_in_range(self.non_cond.dom())
        &&& forall|f: i32| #[trigger]
            self.cond.contains_key(f) ==> !self.non_cond.contains_key(f)
        &&& forall|f: i32| #[trigger]
            self.cond.contains_key(f) ==> (self.cond[f].maskmem_features is Some
                <==> self.cond[f].maskmem_pos_enc is Some)
        &&& forall|f: i32| #[trigger]
            self.encoded.contains_key(f) ==> self.cond.contains_key(f)
                && self.cond[f].maskmem_features is None
    }
}

/// Put the memory of an output at the end of the bank where it has been encoded.
fn append_memory(spatial: &mut Vec<(i32, u64, u64)>, out: &FrameOut, t_pos: i32)
    requires
        0 <= t_pos < NUM_MASKMEM,
    ensures
        final(spatial)@ == if has_memory(*out) {
            old(spatial)@.push(slot_memory(*out, t_pos as int))
        } else {
            old(spatial)@
        },
{
    if let (Some(features), Some(positions)) = (out.maskmem_features, out.maskmem_pos_enc) {
        spatial.push((NUM_MASKMEM - t_pos - 1, features, positions));
    }
}

impl VideoState {
    pub open spec fn wf(&self) -> bool {
        self@.valid()
    }

    fn gather_spatial(&self, frame_idx: i32, reverse: bool) -> (spatial: Vec<(i32, u64, u64)>)
        requires
            0 <= frame_idx <= FRAME_LIMIT,
        ensures
            spatial@ == spatial_bank(self@, frame_idx, reverse),
    {
        let keys: Vec<i32> = ordered_keys(&self.cond);
        let ghost p = prompted_has_memory(self@, keys@);
        let ghost f = prompted_memory(self@, keys@);
        let mut spatial: Vec<(i32, u64, u64)> = Vec::new();
        let mut k: usize = 0;
        while k < keys.len()
            invariant
                k <= keys@.len(),
                keys@.to_set() == self.cond@.dom(),
                p == prompted_has_memory(self@, keys@),
                f == prompted_memory(self@, keys@),
                spatial@ == picked(k as nat, p, f),
            decreases keys@.len() - k,
        {
            let frame: i32 = keys[k];
            assert(keys@.to_set().contains(frame));
            if let Some(out) = self.cond.get(&frame) {
                append_memory(&mut spatial, out, 0);
            }
            k = k + 1;
        }
        let ghost first = spatial@;
        let ghost q = slot_has_memory(self@, frame_idx, reverse);
        let ghost g = nth_slot_memory(self@, frame_idx, reverse);
        let mut s: i32 = 0;
        assert(first + picked(0, q, g) =~= first);
        while s < NUM_MASKMEM - 1
            invariant
                0 <= s <= NUM_MASKMEM - 1,
                0 <= frame_idx <= FRAME_LIMIT,
                q == slot_has_memory(self@, frame_idx, reverse),
                g == nth_slot_memory(self@, frame_idx, reverse),
                spatial@ == first + picked(s as nat, q, g),
            decreases NUM_MASKMEM - 1 - s,
        {
            let prev: i32 = maskmem_prev_frame(frame_idx, s + 1, reverse);
            assert(prev == nth_slot_frame(frame_idx, s as int, reverse));
            if let Some(out) = self.non_cond.get(&prev) {
                append_memory(&mut spatial, out, s + 1);
                proof {
                    let before = picked(s as nat, q, g);
                    if has_memory(*out) {
                        assert(q(s as int));
                        assert(spatial@ =~= first + before.push(g(s as int)));
                    }
                }
            }
            s = s + 1;
        }
        spatial
    }

    fn gather_pointers(&self, frame_idx: i32, reverse: bool) -> (r: Vec<(i32, u64)>)
        requires
            self.wf(),
            0 <= frame_idx <= FRAME_LIMIT,
        ensures
            r@ == all_pointers(self@, frame_idx, reverse),
    {
        let keys: Vec<i32> = ordered_keys(&self.cond);
        let ghost p = in_past(keys@, frame_idx, reverse);
        let ghost f = prompted_pointer(self@, keys@, frame_idx, reverse);
        let mut r: Vec<(i32, u64)> = Vec::new();
        let mut k: usize = 0;
        while k < keys.len()
            invariant
                k <= keys@.len(),
                self.wf(),
                0 <= frame_idx <= FRAME_LIMIT,
                keys@.to_set() == self.cond@.dom(),
                p == in_past(keys@, frame_idx, reverse),
                f == prompted_pointer(self@, keys@, frame_idx, reverse),
                r@ == picked(k as nat, p, f),
            decreases keys@.len() - k,
        {
            let frame: i32 = keys[k];
            assert(keys@.to_set().contains(frame));
            assert(self.cond@.dom().contains(frame));
            let past = if reverse {
                frame >= frame_idx
            } else {
                frame <= frame_idx
            };
            if past {
                if let Some(out) = self.cond.get(&frame) {
                    let distance: i32 = if reverse {
                        frame - frame_idx
                    } else {
                        frame_idx - frame
                    };
                    r.push((distance, out.obj_ptr));
                }
            }
            k = k + 1;
        }
        let ghost first = r@;
        let ghost q = propagated_back(self@, frame_idx, reverse);
        let ghost g = propagated_pointer(self@, frame_idx, reverse);
        let mut t_diff: i32 = 1;
        assert(first + picked(0, q, g) =~= first);
        while t_diff < MAX_OBJ_PTRS
            invariant
                1 <= t_diff <= MAX_OBJ_PTRS,
                0 <= frame_idx <= FRAME_LIMIT,
                q == propagated_back(self@, frame_idx, reverse),
                g == propagated_pointer(self@, frame_idx, reverse),
                r@ == first + picked((t_diff - 1) as nat, q, g),
            decreases MAX_OBJ_PTRS - t_diff,
        {
            let frame: i32 = if reverse {
                frame_idx + t_diff
            } else {
                frame_idx - t_diff
            };
            if let Some(out) = self.non_cond.get(&frame) {
                proof {
                    let before = picked((t_diff - 1) as nat, q, g);
                    assert(q(t_diff - 1));
                    assert((first + before).push(g(t_diff - 1)) =~= first + before.push(
                        g(t_diff - 1),
                    ));
                }
                r.push((t_diff, out.obj_ptr));
            }
            t_diff = t_diff + 1;
        }
        r
    }

    /// Assemble the memory bank that a frame is conditioned on.
    pub fn condition_with_memories(&self, current_frame_idx: i32, track_in_reverse: bool) -> (c:
        Conditioning)
        requires
            self.wf(),
            0 <= current_frame_idx <= FRAME_LIMIT,
        ensures
            conditioned(self@, current_frame_idx, track_in_reverse, c),
    {
        let spatial: Vec<(i32, u64, u64)> = self.gather_spatial(
            current_frame_idx,
            track_in_reverse,
        );
        if spatial.len() == 0 {
            return Conditioning::NoMemory;
        }
        let all: Vec<(i32, u64)> = self.gather_pointers(current_frame_idx, track_in_reverse);
        let ghost goal = pointer_bank(self@, current_frame_idx, track_in_reverse);
        let take: usize = if all.len() <= 16 {
            all.len()
        } else {
            16
        };
        let mut distances: Vec<i32> = Vec::new();
        let mut pointers: Vec<u64> = Vec::new();
        let mut i: usize = 0;
        while i < take
            invariant
                i <= take == goal.len(),
                take <= all@.len(),
                forall|k: int| 0 <= k < take ==> #[trigger] goal[k] == all@[k],
                distances@ == goal.take(i as int).map_values(|e: (i32, u64)| e.0),
                pointers@ == goal.take(i as int).map_values(|e: (i32, u64)| e.1),
            decreases take - i,
        {
            let (distance, pointer): (i32, u64) = all[i];
            assert(goal[i as int] == all@[i as int]);
            distances.push(distance);
            pointers.push(pointer);
            i = i + 1;
            assert(distances@ =~= goal.take(i as int).map_values(|e: (i32, u64)| e.0));
            assert(pointers@ =~= goal.take(i as int).map_values(|e: (i32, u64)| e.1));
        }
        assert(goal.take(take as int) =~= goal);
        Conditioning::Memory {
            spatial,
            distances,
            pointers,
            num_pointer_tokens: TOKENS_PER_POINTER * take,
        }
    }
}

/// How to predict the mask of a frame.
pub enum Inference {
    /// From the prompt alone: several candidate masks, with the no-memory embedding.
    Prompted,
    /// From the memory bank, with the prompt and the previous mask where there are any: one mask.
    Remembered { conditioning: Conditioning },
}

/// How the decoder is run for a frame.
#[derive(Clone, Copy, Debug, PartialEq, Eq, Structural)]
pub struct DecoderSettings {
    /// Several candidate masks, or one.
    pub multimask_output: bool,
    /// The no-memory embedding is added to the features.
    pub add_no_mem_embed: bool,
    /// The mask that goes in as a dense prompt.
    pub mask_input: Option<u64>,
}

impl Inference {
    /// How the decoder is run: from a prompt it starts afresh, from memory it refines.
    pub fn settings(&self, prev_low: Option<u64>) -> (r: DecoderSettings)
        ensures
            r == (match self {
                Inference::Prompted => DecoderSettings {
                    multimask_output: true,
                    add_no_mem_embed: true,
                    mask_input: None,
                },
                Inference::Remembered { .. } => DecoderSettings {
                    multimask_output: false,
                    add_no_mem_embed: false,
                    mask_input: prev_low,
                },
            }),
    {
        match self {
            Inference::Prompted => DecoderSettings {
                multimask_output: true,
                add_no_mem_embed: true,
                mask_input: None,
            },
            Inference::Remembered { .. } => DecoderSettings {
                multimask_output: false,
                add_no_mem_embed: false,
                mask_input: prev_low,
            },
        }
    }
}

/// Where the points of a prediction come from.
#[derive(Clone, Copy, Debug, PartialEq, Eq, Structural)]
pub enum PointInput {
    /// Given coordinates and labels.
    Given { coords: u64, labels: u64 },
    /// One padding point at the origin.
    Padding,
}

/// The points of a prediction: those given, where both coordinates and labels are.
pub fn point_input(coords: Option<u64>, labels: Option<u64>) -> (r: PointInput)
    ensures
        r == (match (coords, labels) {
            (Some(c), Some(l)) => PointInput::Given { coords: c, labels: l },
            _ => PointInput::Padding,
        }),
{
    match (coords, labels) {
        (Some(c), Some(l)) => PointInput::Given { coords: c, labels: l },
        _ => PointInput::Padding,
    }
}

/// A logit within the range of a dense prompt; what is not a number stays so.
pub open spec fn clipped(v: Binary32) -> Binary32 {
    if v.less(Binary32 { bits: NEGATIVE_PROMPT_LIMIT }) {
        Binary32 { bits: NEGATIVE_PROMPT_LIMIT }
    } else if (Binary32 { bits: PROMPT_LIMIT }).less(v) {
        Binary32 { bits: PROMPT_LIMIT }
    } else {
        v
    }
}

/// The previous mask of a frame as a dense prompt.
pub fn clip_previous(mask: &[Binary32]) -> (r: Vec<Binary32>)
    ensures
        r@ == Seq::new(mask@.len(), |i: int| clipped(mask@[i])),
{
    let low = Binary32 { bits: NEGATIVE_PROMPT_LIMIT };
    let high = Binary32 { bits: PROMPT_LIMIT };
    let mut r: Vec<Binary32> = Vec::new();
    let mut i: usize = 0;
    while i < mask.len()
        invariant
            i <= mask@.len(),
            low == (Binary32 { bits: NEGATIVE_PROMPT_LIMIT }),
            high == (Binary32 { bits: PROMPT_LIMIT }),
            r@.len() == i,
            forall|k: int| 0 <= k < i ==> #[trigger] r@[k] == clipped(mask@[k]),
        decreases mask@.len() - i,
    {
        let v: Binary32 = mask[i];
        if v.lt(&low) {
            r.push(low);
        } else if v.gt(&high) {
            r.push(high);
        } else {
            r.push(v);
        }
        i = i + 1;
    }
    assert(r@ =~= Seq::new(mask@.len(), |i: int| clipped(mask@[i])));
    r
}

/// The prediction of a frame starts from its prompt: it is the first on this frame, and no mask
/// precedes it.
pub open spec fn starts_from_prompt(is_init_cond: bool, has_points: bool, prev: Option<u64>) -> bool {
    is_init_cond && prev is None && has_points
}

/// The inference that a frame calls for.
pub open spec fn inferred(
    clip: Clip,
    frame_idx: i32,
    is_init_cond: bool,
    has_points: bool,
    reverse: bool,
    prev: Option<u64>,
    i: Inference,
) -> bool {
    match i {
        Inference::Prompted => starts_from_prompt(is_init_cond, has_points, prev),
        Inference::Remembered { conditioning } => !starts_from_prompt(
            is_init_cond,
            has_points,
            prev,
        ) && conditioned(clip, frame_idx, reverse, conditioning),
    }
}

/// The mask that an edit of a frame refines: that of its prompted output, else of its propagated
/// one.
pub open spec fn previous_mask(clip: Clip, frame_idx: i32) -> Option<u64> {
    if clip.cond.contains_key(frame_idx) {
        Some(clip.cond[frame_idx].pred_masks)
    } else if clip.non_cond.contains_key(frame_idx) {
        Some(clip.non_cond[frame_idx].pred_masks)
    } else {
        None
    }
}

/// The direction in which a frame was tracked; forward where it was not.
pub open spec fn tracked_direction(clip: Clip, frame_idx: i32) -> bool {
    clip.frames_tracked.contains_key(frame_idx) && clip.frames_tracked[frame_idx]
}

/// The inference for an edited frame, and the previous mask to feed back, limited to
/// plus and minus thirty-two.
pub struct PromptRun {
    pub inference: Inference,
    pub prev_low: Option<u64>,
}

/// What the encoder of a frame's memory needs.
#[derive(Clone, Copy, Debug, PartialEq, Eq, Structural)]
pub struct MemoryRequest {
    /// The image features, where they are still at hand.
    pub features: Option<u64>,
    pub pred_masks: u64,
    pub object_score_logits: u64,
    pub is_mask_from_points: bool,
}

/// What propagation does at a frame.
pub enum Step {
    /// The frame was prompted and has a mask.
    Known { pred_masks: u64 },
    /// The frame is to be predicted from memory, and its memory encoded.
    Track { inference: Inference },
}

pub open spec fn lacks_memory(clip: Clip, keys: Seq<i32>) -> spec_fn(int) -> bool {
    |k: int| clip.cond[keys[k]].maskmem_features is None
}

pub open spec fn frame_at(keys: Seq<i32>) -> spec_fn(int) -> i32 {
    |k: int| keys[k]
}

/// The prompted frames whose memory has to be encoded, in order.
pub open spec fn pending_frames(clip: Clip) -> Seq<i32> {
    let keys = in_order(clip.cond.dom());
    picked(keys.len(), lacks_memory(clip, keys), frame_at(keys))
}

/// The clip after a prompt was entered.
pub open spec fn with_points(clip: Clip, frame_idx: i32, prompt: (u64, u64)) -> Clip {
    Clip { points: clip.points.insert(frame_idx, prompt), ..clip }
}

/// The clip after a prompted frame was predicted.
pub open spec fn with_prompted(clip: Clip, frame_idx: i32, out: FrameOut, features: u64) -> Clip {
    Clip {
        cond: clip.cond.insert(frame_idx, out),
        non_cond: clip.non_cond.remove(frame_idx),
        encoded: clip.encoded.insert(frame_idx, features),
        ..clip
    }
}

/// The clip after the memory of a prompted frame was encoded.
pub open spec fn with_memory(clip: Clip, frame_idx: i32, features: u64, positions: u64) -> Clip {
    Clip {
        cond: clip.cond.insert(
            frame_idx,
            FrameOut {
                maskmem_features: Some(features),
                maskmem_pos_enc: Some(positions),
                ..clip.cond[frame_idx]
            },
        ),
        ..clip
    }
}

/// The clip after propagation passed a prompted frame.
pub open spec fn with_passed(clip: Clip, frame_idx: i32) -> Clip {
    Clip { frames_tracked: clip.frames_tracked.insert(frame_idx, false), ..clip }
}

/// The clip after propagation predicted a frame.
pub open spec fn with_propagated(clip: Clip, frame_idx: i32, out: FrameOut) -> Clip {
    with_passed(Clip { non_cond: clip.non_cond.insert(frame_idx, out), ..clip }, frame_idx)
}

/// The first prompted frame.
pub open spec fn is_first(frames: Set<i32>, f: i32) -> bool {
    frames.contains(f) && forall|g: i32| #[trigger] frames.contains(g) ==> f <= g
}

/// The frames from `start` to the end of a clip.
pub open spec fn frames_from(start: i32, num_frames: i32) -> Seq<i32> {
    Seq::new(
        if start < num_frames {
            (num_frames - start) as nat
        } else {
            0
        },
        |i: int| (start + i) as i32,
    )
}

/// The clip after propagation has passed `n` frames from `start` on, where frame `f` that was not
/// prompted is predicted as `outs[f]`.
pub open spec fn propagated(clip: Clip, outs: Map<i32, FrameOut>, start: i32, n: nat) -> Clip
    decreases n,
{
    if n == 0 {
        clip
    } else {
        let before = propagated(clip, outs, start, (n - 1) as nat);
        let frame = (start + n - 1) as i32;
        if clip.cond.contains_key(frame) {
            with_passed(before, frame)
        } else {
            with_propagated(before, frame, outs[frame])
        }
    }
}

impl VideoState {
    /// The state of a clip before any prompt.
    pub fn new(num_frames: i32, video_h: u32, video_w: u32) -> (r: VideoState)
        ensures
            r.wf(),
            r@ == (Clip {
                num_frames,
                video_h,
                video_w,
                cond: Map::empty(),
                non_cond: Map::empty(),
                points: Map::empty(),
                frames_tracked: Map::empty(),
                encoded: Map::empty(),
            }),
    {
        VideoState {
            num_frames,
            video_h,
            video_w,
            cond: BTreeMap::new(),
            non_cond: BTreeMap::new(),
            points: BTreeMap::new(),
            frames_tracked: BTreeMap::new(),
            encoded: BTreeMap::new(),
        }
    }

    /// Choose the inference for a frame.
    pub fn run_single_frame(
        &self,
        frame_idx: i32,
        is_init_cond: bool,
        has_points: bool,
        reverse: bool,
        prev_low: Option<u64>,
    ) -> (r: Inference)
        requires
            self.wf(),
            0 <= frame_idx <= FRAME_LIMIT,
        ensures
            inferred(self@, frame_idx, is_init_cond, has_points, reverse, prev_low, r),
    {
        if is_init_cond && prev_low.is_none() && has_points {
            Inference::Prompted
        } else {
            Inference::Remembered {
                conditioning: self.condition_with_memories(frame_idx, reverse),
            }
        }
    }

    /// Enter a prompt on a frame and choose the inference that it calls for.
    pub fn begin_prompt(&mut self, frame_idx: i32, points: u64, labels: u64) -> (r: PromptRun)
        requires
            old(self).wf(),
            0 <= frame_idx <= FRAME_LIMIT,
        ensures
            final(self).wf(),
            final(self)@ == with_points(old(self)@, frame_idx, (points, labels)),
            r.prev_low == previous_mask(old(self)@, frame_idx),
            old(self)@.cond.contains_key(frame_idx) ==> r.prev_low == Some(
                old(self)@.cond[frame_idx].pred_masks,
            ),
            !old(self)@.cond.contains_key(frame_idx) && old(self)@.non_cond.contains_key(frame_idx)
                ==> r.prev_low == Some(old(self)@.non_cond[frame_idx].pred_masks),
            r.prev_low is None <==> !old(self)@.cond.contains_key(frame_idx)
                && !old(self)@.non_cond.contains_key(frame_idx),
            r.inference is Prompted <==> r.prev_low is None
                && !old(self)@.frames_tracked.contains_key(frame_idx),
            inferred(
                old(self)@,
                frame_idx,
                !old(self)@.frames_tracked.contains_key(frame_idx),
                true,
                tracked_direction(old(self)@, frame_idx),
                r.prev_low,
                r.inference,
            ),
    {
        let passed: Option<bool> = match self.frames_tracked.get(&frame_idx) {
            Some(b) => Some(*b),
            None => None,
        };
        let is_init_cond = passed.is_none();
        let reverse = match passed {
            Some(b) => b,
            None => false,
        };
        let prev_low: Option<u64> = match self.cond.get(&frame_idx) {
            Some(out) => Some(out.pred_masks),
            None => match self.non_cond.get(&frame_idx) {
                Some(out) => Some(out.pred_masks),
                None => None,
            },
        };
        let inference = self.run_single_frame(frame_idx, is_init_cond, true, reverse, prev_low);
        let ghost before = self@;
        self.points.insert(frame_idx, (points, labels));
        proof {
            assert(self@ == with_points(before, frame_idx, (points, labels)));
            assert(self@.valid());
        }
        PromptRun { inference, prev_low }
    }

    /// Store the prediction of a prompted frame and the image features that it came from; returns
    /// its mask. The memory is encoded before propagation.
    pub fn finish_prompt(
        &mut self,
        frame_idx: i32,
        pred_masks: u64,
        obj_ptr: u64,
        object_score_logits: u64,
        features: u64,
    ) -> (mask: u64)
        requires
            old(self).wf(),
            0 <= frame_idx <= FRAME_LIMIT,
        ensures
            final(self).wf(),
            mask == pred_masks,
            final(self)@ == with_prompted(
                old(self)@,
                frame_idx,
                (FrameOut {
                    pred_masks,
                    obj_ptr,
                    object_score_logits,
                    maskmem_features: None,
                    maskmem_pos_enc: None,
                }),
                features,
            ),
    {
        let out = FrameOut {
            pred_masks,
            obj_ptr,
            object_score_logits,
            maskmem_features: None,
            maskmem_pos_enc: None,
        };
        let ghost before = self@;
        self.cond.insert(frame_idx, out);
        self.non_cond.remove(&frame_idx);
        self.encoded.insert(frame_idx, features);
        proof {
            assert(self@ == with_prompted(before, frame_idx, out, features));
            assert(frames_in_range(self@.cond.dom()));
            assert(frames_in_range(self@.non_cond.dom()));
        }
        pred_masks
    }

    /// The prompted frames whose memory has to be encoded before propagation.
    pub fn preflight(&self) -> (r: Vec<i32>)
        ensures
            r@ == pending_frames(self@),
    {
        let keys: Vec<i32> = ordered_keys(&self.cond);
        let ghost p = lacks_memory(self@, keys@);
        let ghost f = frame_at(keys@);
        let mut r: Vec<i32> = Vec::new();
        let mut k: usize = 0;
        while k < keys.len()
            invariant
                k <= keys@.len(),
                keys@.to_set() == self.cond@.dom(),
                p == lacks_memory(self@, keys@),
                f == frame_at(keys@),
                r@ == picked(k as nat, p, f),
            decreases keys@.len() - k,
        {
            let frame: i32 = keys[k];
            assert(keys@.to_set().contains(frame));
            if let Some(out) = self.cond.get(&frame) {
                if out.maskmem_features.is_none() {
                    r.push(frame);
                }
            }
            k = k + 1;
        }
        r
    }

    /// What the memory encoder needs for a prompted frame; its image features are handed out and
    /// no longer kept.
    pub fn memory_request(&mut self, frame_idx: i32) -> (r: MemoryRequest)
        requires
            old(self).wf(),
            old(self)@.cond.contains_key(frame_idx),
        ensures
            final(self).wf(),
            final(self)@ == (Clip { encoded: old(self)@.encoded.remove(frame_idx), ..old(self)@ }),
            r.features == (if old(self)@.encoded.contains_key(frame_idx) {
                Some(old(self)@.encoded[frame_idx])
            } else {
                None
            }),
            r.pred_masks == old(self)@.cond[frame_idx].pred_masks,
            r.object_score_logits == old(self)@.cond[frame_idx].object_score_logits,
            r.is_mask_from_points == old(self)@.points.contains_key(frame_idx),
    {
        let features: Option<u64> = self.encoded.remove(&frame_idx);
        let is_mask_from_points = self.points.contains_key(&frame_idx);
        let (pred_masks, object_score_logits): (u64, u64) = match self.cond.get(&frame_idx) {
            Some(out) => (out.pred_masks, out.object_score_logits),
            None => (0, 0),
        };
        MemoryRequest { features, pred_masks, object_score_logits, is_mask_from_points }
    }

    /// Store the encoded memory of a prompted frame.
    pub fn store_memory(&mut self, frame_idx: i32, features: u64, positions: u64)
        requires
            old(self).wf(),
            old(self)@.cond.contains_key(frame_idx),
            !old(self)@.encoded.contains_key(frame_idx),
        ensures
            final(self).wf(),
            final(self)@ == with_memory(old(self)@, frame_idx, features, positions),
    {
        let held: Option<FrameOut> = match self.cond.get(&frame_idx) {
            Some(out) => Some(*out),
            None => None,
        };
        if let Some(out) = held {
            let entry = FrameOut {
                pred_masks: out.pred_masks,
                obj_ptr: out.obj_ptr,
                object_score_logits: out.object_score_logits,
                maskmem_features: Some(features),
                maskmem_pos_enc: Some(positions),
            };
            self.cond.insert(frame_idx, entry);
        }
    }

    /// The first prompted frame, from which propagation starts; an error where there is no prompt.
    pub fn propagation_start(&self) -> (r: Result<i32, VideoError>)
        ensures
            match r {
                Ok(f) => is_first(self@.cond.dom(), f),
                Err(e) => e == VideoError::NoPrompt && self@.cond.dom() == Set::<i32>::empty(),
            },
    {
        let keys: Vec<i32> = ordered_keys(&self.cond);
        if keys.len() == 0 {
            assert(keys@.to_set() =~= Set::<i32>::empty());
            return Err(VideoError::NoPrompt);
        }
        let first: i32 = keys[0];
        proof {
            assert(keys@.to_set().contains(first));
            assert forall|g: i32| #[trigger] self@.cond.dom().contains(g) implies first <= g by {
                assert(keys@.to_set().contains(g));
                let k = choose|k: int| 0 <= k < keys@.len() && keys@[k] == g;
                if k > 0 {
                    assert(keys@[0] < keys@[k]);
                }
            }
        }
        Ok(first)
    }

    /// The frames of a propagation in order: from the first prompted frame to the end of the clip.
    pub fn propagation_frames(&self) -> (r: Result<Vec<i32>, VideoError>)
        ensures
            match r {
                Ok(frames) => exists|start: i32|
                    #[trigger] is_first(self@.cond.dom(), start) && frames@ == frames_from(
                        start,
                        self@.num_frames,
                    ),
                Err(e) => e == VideoError::NoPrompt && self@.cond.dom() == Set::<i32>::empty(),
            },
    {
        let start: i32 = match self.propagation_start() {
            Ok(f) => f,
            Err(e) => {
                return Err(e);
            },
        };
        let mut frames: Vec<i32> = Vec::new();
        let ghost goal = frames_from(start, self.num_frames);
        let mut f: i32 = start;
        assert(goal.take(0) =~= Seq::empty());
        while f < self.num_frames
            invariant
                start <= f,
                start < self.num_frames ==> f <= self.num_frames,
                start >= self.num_frames ==> f == start,
                goal == frames_from(start, self.num_frames),
                frames@ == goal.take(f - start),
            decreases self.num_frames - f,
        {
            frames.push(f);
            assert(goal.take(f - start + 1) =~= goal.take(f - start).push(goal[f - start]));
            f = f + 1;
        }
        assert(goal.take(f - start) =~= goal);
        assert(is_first(self@.cond.dom(), start));
        Ok(frames)
    }

    /// What propagation does at a frame.
    pub fn propagation_step(&self, frame_idx: i32) -> (r: Step)
        requires
            self.wf(),
            0 <= frame_idx <= FRAME_LIMIT,
        ensures
            match r {
                Step::Known { pred_masks } => self@.cond.contains_key(frame_idx) && pred_masks
                    == self@.cond[frame_idx].pred_masks,
                Step::Track { inference } => !self@.cond.contains_key(frame_idx) && inferred(
                    self@,
                    frame_idx,
                    false,
                    false,
                    false,
                    None,
                    inference,
                ),
            },
            match r {
                Step::Known { .. } => true,
                Step::Track { inference } => inference matches Inference::Remembered { conditioning }
                    && conditioned(self@, frame_idx, false, conditioning),
            },
    {
        match self.cond.get(&frame_idx) {
            Some(out) => Step::Known { pred_masks: out.pred_masks },
            None => Step::Track {
                inference: self.run_single_frame(frame_idx, false, false, false, None),
            },
        }
    }

    /// Record that propagation passed a prompted frame.
    pub fn pass_prompted(&mut self, frame_idx: i32)
        requires
            old(self).wf(),
        ensures
            final(self).wf(),
            final(self)@ == with_passed(old(self)@, frame_idx),
    {
        let ghost before = self@;
        self.frames_tracked.insert(frame_idx, false);
        assert(self@ == with_passed(before, frame_idx));
    }

    /// Record the prediction of a propagated frame.
    pub fn finish_tracked(&mut self, frame_idx: i32, out: FrameOut)
        requires
            old(self).wf(),
            0 <= frame_idx <= FRAME_LIMIT,
            !old(self)@.cond.contains_key(frame_idx),
        ensures
            final(self).wf(),
            final(self)@ == with_propagated(old(self)@, frame_idx, out),
    {
        let ghost before = self@;
        self.non_cond.insert(frame_idx, out);
        self.frames_tracked.insert(frame_idx, false);
        assert(self@ == with_propagated(before, frame_idx, out));
    }
}

/// Why a clip cannot be processed.
#[derive(Clone, Copy, Debug, PartialEq, Eq, Structural)]
pub enum VideoError {
    /// Propagation was asked for before any prompt.
    NoPrompt,
    /// Points and labels come in different numbers.
    PointLabelMismatch { points: usize, labels: usize },
}

impl VideoError {
    /// The complaint in words.
    pub open spec fn text(self) -> Seq<char> {
        match self {
            VideoError::NoPrompt =>
            "sam2 propagate: a prompt is required before propagation (no conditioning frames — call add_box/add_correction_points first)"@,
            VideoError::PointLabelMismatch { points, labels } =>
            "sam2 add_correction_points: points/labels length mismatch ("@ + digits(points as nat)
                + " vs "@ + digits(labels as nat) + ")"@,
        }
    }

    /// This complaint in words.
    pub fn message(&self) -> (r: String)
        ensures
            r@ == self.text(),
    {
        match self {
            VideoError::NoPrompt =>
            "sam2 propagate: a prompt is required before propagation (no conditioning frames — call add_box/add_correction_points first)".to_owned(),
            VideoError::PointLabelMismatch { points, labels } => {
                let mut r: String =
                    "sam2 add_correction_points: points/labels length mismatch (".to_owned();
                r.append(decimal(*points as u64).as_str());
                r.append(" vs ");
                r.append(decimal(*labels as u64).as_str());
                r.append(")");
                r
            },
        }
    }
}

/// Correction points are accepted exactly where each has a label.
pub fn check_correction_points(points: usize, labels: usize) -> (r: Result<(), VideoError>)
    ensures
        match r {
            Ok(_) => points == labels,
            Err(e) => points != labels && e == (VideoError::PointLabelMismatch { points, labels }),
        },
{
    if points != labels {
        Err(VideoError::PointLabelMismatch { points, labels })
    } else {
        Ok(())
    }
}

/// Forward, the slots read the six frames right behind the current one, each once and in order;
/// in reverse, the six right ahead.
pub proof fn slots_are_consecutive(current: int, t_pos: int, u_pos: int)
    requires
        1 <= t_pos < u_pos < NUM_MASKMEM,
    ensures
        slot_frame(current, NUM_MASKMEM - 1, false) == current - 1,
        slot_frame(current, NUM_MASKMEM - 1, true) == current + 1,
        current - 6 <= slot_frame(current, t_pos, false) < slot_frame(current, u_pos, false)
            < current,
        current < slot_frame(current, u_pos, true) < slot_frame(current, t_pos, true) <= current
            + 6,
        slot_frame(current, u_pos, false) - slot_frame(current, t_pos, false) == u_pos - t_pos,
{
}

/// No frame attends to more object pointers than the limit, and forward none of them lies ahead.
pub proof fn pointers_are_bounded(clip: Clip, frame_idx: i32)
    requires
        clip.valid(),
        clip.cond.dom().finite(),
        0 <= frame_idx <= FRAME_LIMIT,
    ensures
        pointer_bank(clip, frame_idx, false).len() <= MAX_OBJ_PTRS,
        pointer_bank(clip, frame_idx, true).len() <= MAX_OBJ_PTRS,
        forall|k: int|
            0 <= k < pointer_bank(clip, frame_idx, false).len() ==> (#[trigger] pointer_bank(
                clip,
                frame_idx,
                false,
            )[k]).0 >= 0,
{
    let keys = in_order(clip.cond.dom());
    let (p, f) = (in_past(keys, frame_idx, false), prompted_pointer(clip, keys, frame_idx, false));
    let (q, g) = (
        propagated_back(clip, frame_idx, false),
        propagated_pointer(clip, frame_idx, false),
    );
    let (a, b) = (picked(keys.len(), p, f), picked((MAX_OBJ_PTRS - 1) as nat, q, g));
    let all = all_pointers(clip, frame_idx, false);
    in_order_of_finite(clip.cond.dom());
    assert forall|k: int|
        0 <= k < pointer_bank(clip, frame_idx, false).len() implies (#[trigger] pointer_bank(
        clip,
        frame_idx,
        false,
    )[k]).0 >= 0 by {
        assert(pointer_bank(clip, frame_idx, false)[k] == all[k]);
        if k < a.len() {
            assert(all[k] == a[k]);
            let i = picked_sound(keys.len(), p, f, k);
            assert(keys.to_set().contains(keys[i]));
            assert(clip.cond.dom().contains(keys[i]));
            assert(a[k].0 == (frame_idx - keys[i]) as i32);
        } else {
            assert(all[k] == b[k - a.len()]);
            let i = picked_sound((MAX_OBJ_PTRS - 1) as nat, q, g, k - a.len());
        }
    }
}

/// The memory of a prompted frame is read by every frame, in either direction, at the last row of
/// the temporal encoding: a frame of a clip with such a memory never goes without.
pub proof fn prompted_memories_are_always_read(
    clip: Clip,
    f: i32,
    frame_idx: i32,
    reverse: bool,
    c: Conditioning,
)
    requires
        clip.cond.dom().finite(),
        clip.cond.contains_key(f),
        has_memory(clip.cond[f]),
    ensures
        spatial_bank(clip, frame_idx, reverse).contains(slot_memory(clip.cond[f], 0)),
        slot_memory(clip.cond[f], 0).0 == NUM_MASKMEM - 1,
        conditioned(clip, frame_idx, reverse, c) ==> c is Memory,
{
    let keys = in_order(clip.cond.dom());
    in_order_of_finite(clip.cond.dom());
    assert(keys.to_set().contains(f));
    let i = choose|i: int| 0 <= i < keys.len() && keys[i] == f;
    let (p, g) = (prompted_has_memory(clip, keys), prompted_memory(clip, keys));
    assert(p(i));
    picked_complete(keys.len(), p, g, i);
    let first = picked(keys.len(), p, g);
    let k = choose|k: int| 0 <= k < first.len() && first[k] == g(i);
    assert(spatial_bank(clip, frame_idx, reverse)[k] == g(i));
}

/// What propagation writes at a frame, the next six frames read: the memory at the row of its
/// distance.
pub proof fn propagated_memories_are_read(clip: Clip, f: i32, out: FrameOut, frame_idx: i32)
    requires
        0 <= f < frame_idx,
        frame_idx - f < NUM_MASKMEM,
        has_memory(out),
    ensures
        spatial_bank(with_propagated(clip, f, out), frame_idx, false).contains(
            (
                (frame_idx - f - 1) as i32,
                out.maskmem_features->0,
                out.maskmem_pos_enc->0,
            ),
        ),
{
    let after = with_propagated(clip, f, out);
    let keys = in_order(after.cond.dom());
    let first = picked(keys.len(), prompted_has_memory(after, keys), prompted_memory(after, keys));
    let (q, g) = (
        slot_has_memory(after, frame_idx, false),
        nth_slot_memory(after, frame_idx, false),
    );
    let n = (NUM_MASKMEM - 1) as nat;
    let at = NUM_MASKMEM - 1 - (frame_idx - f);
    assert(nth_slot_frame(frame_idx, at, false) == f);
    assert(q(at));
    picked_complete(n, q, g, at);
    let second = picked(n, q, g);
    let k = choose|k: int| 0 <= k < second.len() && second[k] == g(at);
    assert((first + second)[first.len() + k] == g(at));
}

/// An edit of a frame makes it a prompted frame, whatever it was, and keeps its image features
/// until its memory is encoded.
pub proof fn edited_frame_is_prompted(clip: Clip, frame_idx: i32, out: FrameOut, features: u64)
    ensures
        with_prompted(clip, frame_idx, out, features).cond.contains_key(frame_idx),
        !with_prompted(clip, frame_idx, out, features).non_cond.contains_key(frame_idx),
        with_prompted(clip, frame_idx, out, features).encoded[frame_idx] == features,
{
}

/// The clip after the memories of the first `n` of these frames were encoded.
pub open spec fn settled(
    clip: Clip,
    memories: Map<i32, (u64, u64)>,
    frames: Seq<i32>,
    n: nat,
) -> Clip
    decreases n,
{
    if n == 0 {
        clip
    } else {
        let before = settled(clip, memories, frames, (n - 1) as nat);
        let f = frames[n - 1];
        with_memory(
            Clip { encoded: before.encoded.remove(f), ..before },
            f,
            memories[f].0,
            memories[f].1,
        )
    }
}

proof fn settling_goes_frame_by_frame(
    clip: Clip,
    memories: Map<i32, (u64, u64)>,
    frames: Seq<i32>,
    n: nat,
    f: i32,
)
    requires
        n <= frames.len(),
        clip.cond.contains_key(f),
    ensures
        ({
            let after = settled(clip, memories, frames, n);
            &&& after.cond.contains_key(f)
            &&& after.cond[f].pred_masks == clip.cond[f].pred_masks
            &&& after.cond[f].obj_ptr == clip.cond[f].obj_ptr
            &&& if frames.take(n as int).contains(f) {
                &&& after.cond[f].maskmem_features == Some(memories[f].0)
                &&& after.cond[f].maskmem_pos_enc == Some(memories[f].1)
                &&& !after.encoded.contains_key(f)
            } else {
                &&& after.cond[f] == clip.cond[f]
                &&& after.encoded.contains_key(f) == clip.encoded.contains_key(f)
            }
            &&& after.non_cond == clip.non_cond
        }),
    decreases n,
{
    if n > 0 {
        settling_goes_frame_by_frame(clip, memories, frames, (n - 1) as nat, f);
        let (few, more) = (frames.take(n - 1), frames.take(n as int));
        assert(more =~= few.push(frames[n - 1]));
        assert(more.contains(f) <==> few.contains(f) || frames[n - 1] == f) by {
            if few.contains(f) {
                let k = choose|k: int| 0 <= k < few.len() && few[k] == f;
                assert(more[k] == f);
            }
            if frames[n - 1] == f {
                assert(more[n - 1] == f);
            }
        }
    }
}

/// Once the pending memories are encoded, every prompted frame has its memory, no image features
/// are kept for it any longer, and its mask and pointer are what they were.
pub proof fn every_prompt_gets_its_memory(
    clip: Clip,
    memories: Map<i32, (u64, u64)>,
    f: i32,
)
    requires
        clip.valid(),
        clip.cond.dom().finite(),
        clip.cond.contains_key(f),
    ensures
        ({
            let pending = pending_frames(clip);
            let after = settled(clip, memories, pending, pending.len());
            &&& after.cond.contains_key(f)
            &&& has_memory(after.cond[f])
            &&& after.cond[f].pred_masks == clip.cond[f].pred_masks
            &&& after.cond[f].obj_ptr == clip.cond[f].obj_ptr
            &&& !after.encoded.contains_key(f)
            &&& after.non_cond == clip.non_cond
        }),
{
    let pending = pending_frames(clip);
    let keys = in_order(clip.cond.dom());
    settling_goes_frame_by_frame(clip, memories, pending, pending.len(), f);
    assert(pending.take(pending.len() as int) =~= pending);
    if clip.cond[f].maskmem_features is None {
        in_order_of_finite(clip.cond.dom());
        assert(keys.to_set().contains(f));
        let k = choose|k: int| 0 <= k < keys.len() && keys[k] == f;
        picked_complete(keys.len(), lacks_memory(clip, keys), frame_at(keys), k);
        assert(frame_at(keys)(k) == f);
    }
}

/// Propagation leaves the prompted frames as they are, gives every frame that it passes an output,
/// and records the frame as tracked forward.
pub proof fn propagation_covers_the_clip(
    clip: Clip,
    outs: Map<i32, FrameOut>,
    start: i32,
    n: nat,
    f: i32,
)
    requires
        0 <= start,
        start + n <= i32::MAX,
        start <= f < start + n,
    ensures
        ({
            let after = propagated(clip, outs, start, n);
            &&& after.cond == clip.cond
            &&& after.frames_tracked.contains_key(f)
            &&& !after.frames_tracked[f]
            &&& !clip.cond.contains_key(f) ==> after.non_cond.contains_key(f)
                && after.non_cond[f] == outs[f]
        }),
    decreases n,
{
    let frame = (start + n - 1) as i32;
    propagation_keeps_prompts(clip, outs, start, (n - 1) as nat);
    if f != frame {
        propagation_covers_the_clip(clip, outs, start, (n - 1) as nat, f);
    }
}

proof fn propagation_keeps_prompts(clip: Clip, outs: Map<i32, FrameOut>, start: i32, n: nat)
    ensures
        propagated(clip, outs, start, n).cond == clip.cond,
    decreases n,
{
    if n > 0 {
        propagation_keeps_prompts(clip, outs, start, (n - 1) as nat);
    }
}

/// A prompt on a frame that propagation has been over starts from the mask that propagation left
/// there, and a prompt on a frame that was prompted from the mask of the prompt before.
pub proof fn prompts_refine_the_mask_on_their_frame(
    clip: Clip,
    frame_idx: i32,
    out: FrameOut,
    features: u64,
)
    ensures
        !clip.cond.contains_key(frame_idx) ==> previous_mask(
            with_propagated(clip, frame_idx, out),
            frame_idx,
        ) == Some(out.pred_masks),
        previous_mask(with_prompted(clip, frame_idx, out, features), frame_idx) == Some(
            out.pred_masks,
        ),
        previous_mask(clip, frame_idx) is None <==> !clip.cond.contains_key(frame_idx)
            && !clip.non_cond.contains_key(frame_idx),
{
}

/// The mask that a prompt starts from survives what happens on other frames: prompts, propagation
/// and memories leave it.
pub proof fn other_frames_leave_the_mask(
    clip: Clip,
    frame_idx: i32,
    other: i32,
    out: FrameOut,
    a: u64,
    b: u64,
)
    requires
        other != frame_idx,
    ensures
        previous_mask(with_propagated(clip, other, out), frame_idx) == previous_mask(
            clip,
            frame_idx,
        ),
        previous_mask(with_prompted(clip, other, out, a), frame_idx) == previous_mask(
            clip,
            frame_idx,
        ),
        previous_mask(with_memory(clip, other, a, b), frame_idx) == previous_mask(clip, frame_idx),
        clip.cond.contains_key(frame_idx) ==> previous_mask(
            with_memory(clip, frame_idx, a, b),
            frame_idx,
        ) == previous_mask(clip, frame_idx),
        previous_mask(with_points(clip, frame_idx, (a, b)), frame_idx) == previous_mask(
            clip,
            frame_idx,
        ),
        previous_mask(with_passed(clip, frame_idx), frame_idx) == previous_mask(clip, frame_idx),
{
}

/// A frame is inferred from its prompt alone only where it starts the clip: it has points, no mask
/// from before and was not tracked. Everywhere else the memories decide, and nothing but their
/// absence leaves a frame without them.
pub proof fn memories_are_read_after_the_start(
    clip: Clip,
    frame_idx: i32,
    is_init_cond: bool,
    has_points: bool,
    reverse: bool,
    prev: Option<u64>,
    i: Inference,
)
    requires
        inferred(clip, frame_idx, is_init_cond, has_points, reverse, prev, i),
    ensures
        i is Prompted <==> is_init_cond && has_points && prev is None,
        i matches Inference::Remembered { conditioning } ==> (conditioning is NoMemory
            <==> spatial_bank(clip, frame_idx, reverse).len() == 0),
{
}

/// Memories are read from the six frames before the current one (after it, going back): the frame
/// `d` steps away is in slot `d - 1`, and nothing else than these and the prompted frames, in the
/// last slot, is read.
pub proof fn memories_come_from_near_frames_and_prompts(
    clip: Clip,
    frame_idx: i32,
    reverse: bool,
    e: (i32, u64, u64),
)
    requires
        clip.cond.dom().finite(),
        0 <= frame_idx <= FRAME_LIMIT,
        spatial_bank(clip, frame_idx, reverse).contains(e),
    ensures
        (e.0 == 6 && exists|f: i32| #[trigger]
            clip.cond.contains_key(f) && clip.cond[f].maskmem_features == Some(e.1)
                && clip.cond[f].maskmem_pos_enc == Some(e.2)) || (0 <= e.0 <= 5 && {
            let f = (if reverse {
                frame_idx + (e.0 + 1)
            } else {
                frame_idx - (e.0 + 1)
            }) as i32;
            &&& clip.non_cond.contains_key(f)
            &&& clip.non_cond[f].maskmem_features == Some(e.1)
            &&& clip.non_cond[f].maskmem_pos_enc == Some(e.2)
        }),
{
    let keys = in_order(clip.cond.dom());
    in_order_of_finite(clip.cond.dom());
    let n = (NUM_MASKMEM - 1) as nat;
    let first = picked(keys.len(), prompted_has_memory(clip, keys), prompted_memory(clip, keys));
    let second = picked(
        n,
        slot_has_memory(clip, frame_idx, reverse),
        nth_slot_memory(clip, frame_idx, reverse),
    );
    let k = choose|k: int| 0 <= k < (first + second).len() && (first + second)[k] == e;
    if k < first.len() {
        let i = picked_sound(
            keys.len(),
            prompted_has_memory(clip, keys),
            prompted_memory(clip, keys),
            k,
        );
        assert(keys.to_set().contains(keys[i]));
        assert(clip.cond.contains_key(keys[i]));
    } else {
        let i = picked_sound(
            n,
            slot_has_memory(clip, frame_idx, reverse),
            nth_slot_memory(clip, frame_idx, reverse),
            k - first.len(),
        );
    }
}

/// Going back, the memory of a frame up to six frames ahead is read, in the slot of its distance.
pub proof fn propagated_memories_are_read_backwards(clip: Clip, f: i32, frame_idx: i32)
    requires
        0 <= frame_idx < f <= FRAME_LIMIT,
        f - frame_idx <= 6,
        clip.non_cond.contains_key(f),
        clip.non_cond[f].maskmem_features is Some,
        clip.non_cond[f].maskmem_pos_enc is Some,
    ensures
        spatial_bank(clip, frame_idx, true).contains(
            (
                (f - frame_idx - 1) as i32,
                clip.non_cond[f].maskmem_features->0,
                clip.non_cond[f].maskmem_pos_enc->0,
            ),
        ),
{
    let n = (NUM_MASKMEM - 1) as nat;
    let keys = in_order(clip.cond.dom());
    let first = picked(keys.len(), prompted_has_memory(clip, keys), prompted_memory(clip, keys));
    let (p, g) = (slot_has_memory(clip, frame_idx, true), nth_slot_memory(clip, frame_idx, true));
    let s = NUM_MASKMEM - (f - frame_idx) - 1;
    assert(nth_slot_frame(frame_idx, s, true) == f);
    picked_complete(n, p, g, s);
    let second = picked(n, p, g);
    let k = choose|k: int| 0 <= k < second.len() && second[k] == g(s);
    assert((first + second)[first.len() + k] == g(s));
}

/// Every pointer that is read is that of a prompted frame that is not ahead of the current one, or
/// of a propagated frame up to fifteen steps back, and stands beside its distance.
pub proof fn pointers_stand_beside_their_distance(
    clip: Clip,
    frame_idx: i32,
    reverse: bool,
    e: (i32, u64),
)
    requires
        clip.valid(),
        clip.cond.dom().finite(),
        0 <= frame_idx <= FRAME_LIMIT,
        pointer_bank(clip, frame_idx, reverse).contains(e),
    ensures
        ({
            let f = (if reverse {
                frame_idx + e.0
            } else {
                frame_idx - e.0
            }) as i32;
            &&& e.0 >= 0
            &&& (clip.cond.contains_key(f) && clip.cond[f].obj_ptr == e.1) || (1 <= e.0 <= 15
                && clip.non_cond.contains_key(f) && clip.non_cond[f].obj_ptr == e.1)
        }),
        pointer_bank(clip, frame_idx, reverse).len() <= 16,
{
    let keys = in_order(clip.cond.dom());
    in_order_of_finite(clip.cond.dom());
    let n = (MAX_OBJ_PTRS - 1) as nat;
    let all = all_pointers(clip, frame_idx, reverse);
    let bank = pointer_bank(clip, frame_idx, reverse);
    let first = picked(
        keys.len(),
        in_past(keys, frame_idx, reverse),
        prompted_pointer(clip, keys, frame_idx, reverse),
    );
    let second = picked(
        n,
        propagated_back(clip, frame_idx, reverse),
        propagated_pointer(clip, frame_idx, reverse),
    );
    let k = choose|k: int| 0 <= k < bank.len() && bank[k] == e;
    assert(all[k] == e);
    if k < first.len() {
        let i = picked_sound(
            keys.len(),
            in_past(keys, frame_idx, reverse),
            prompted_pointer(clip, keys, frame_idx, reverse),
            k,
        );
        assert(keys.to_set().contains(keys[i]));
        assert(clip.cond.contains_key(keys[i]));
        assert(clip.cond.dom().contains(keys[i]));
    } else {
        let i = picked_sound(
            n,
            propagated_back(clip, frame_idx, reverse),
            propagated_pointer(clip, frame_idx, reverse),
            k - first.len(),
        );
    }
}

/// Where no more than sixteen pointers are at hand, each prompted frame that is not ahead and each
/// propagated frame up to fifteen steps back gives its own.
pub proof fn few_pointers_are_all_read(clip: Clip, frame_idx: i32, reverse: bool, f: i32)
    requires
        clip.valid(),
        clip.cond.dom().finite(),
        0 <= frame_idx <= FRAME_LIMIT,
        all_pointers(clip, frame_idx, reverse).len() <= 16,
        if reverse {
            f >= frame_idx
        } else {
            f <= frame_idx
        },
    ensures
        ({
            let away = (if reverse {
                f - frame_idx
            } else {
                frame_idx - f
            }) as i32;
            let bank = pointer_bank(clip, frame_idx, reverse);
            &&& clip.cond.contains_key(f) ==> bank.contains((away, clip.cond[f].obj_ptr))
            &&& clip.non_cond.contains_key(f) && 1 <= away <= 15 ==> bank.contains(
                (away, clip.non_cond[f].obj_ptr),
            )
        }),
{
    let keys = in_order(clip.cond.dom());
    in_order_of_finite(clip.cond.dom());
    let n = (MAX_OBJ_PTRS - 1) as nat;
    let (p, g) = (
        in_past(keys, frame_idx, reverse),
        prompted_pointer(clip, keys, frame_idx, reverse),
    );
    let (q, h) = (
        propagated_back(clip, frame_idx, reverse),
        propagated_pointer(clip, frame_idx, reverse),
    );
    let first = picked(keys.len(), p, g);
    let second = picked(n, q, h);
    let away = if reverse {
        f - frame_idx
    } else {
        frame_idx - f
    };
    if clip.cond.contains_key(f) {
        assert(keys.to_set().contains(f));
        let i = keys.index_of(f);
        picked_complete(keys.len(), p, g, i);
        let k = choose|k: int| 0 <= k < first.len() && first[k] == g(i);
        assert((first + second)[k] == g(i));
    }
    if clip.non_cond.contains_key(f) && 1 <= away <= 15 {
        assert(clip.non_cond.dom().contains(f));
        assert(stepped_back(frame_idx, away - 1, reverse) == f);
        picked_complete(n, q, h, away - 1);
        let k = choose|k: int| 0 <= k < second.len() && second[k] == h(away - 1);
        assert((first + second)[first.len() + k] == h(away - 1));
    }
}

/// Four tokens stand for each pointer, and there are as many distances as pointers.
pub proof fn pointers_take_four_tokens(
    clip: Clip,
    frame_idx: i32,
    reverse: bool,
    c: Conditioning,
)
    requires
        conditioned(clip, frame_idx, reverse, c),
    ensures
        c matches Conditioning::Memory { spatial, distances, pointers, num_pointer_tokens } ==> {
            &&& num_pointer_tokens == 4 * pointers@.len()
            &&& distances@.len() == pointers@.len()
            &&& forall|k: int|
                0 <= k < pointers@.len() ==> (distances@[k], #[trigger] pointers@[k])
                    == pointer_bank(clip, frame_idx, reverse)[k]
        },
{
}

/// The logits of an earlier mask are kept between minus thirty-two and thirty-two, and stay as they
/// are within.
pub proof fn earlier_masks_are_clipped(v: Binary32)
    ensures
        !v.nan() ==> (Binary32 { bits: 0xc200_0000 }).at_most(clipped(v)) && clipped(v).at_most(
            Binary32 { bits: 0x4200_0000 },
        ),
        (Binary32 { bits: 0xc200_0000 }).at_most(v) && v.at_most(Binary32 { bits: 0x4200_0000 })
            ==> clipped(v) == v,
        v.less(Binary32 { bits: 0xc200_0000 }) ==> clipped(v).bits == 0xc200_0000,
        (Binary32 { bits: 0x4200_0000 }).less(v) ==> clipped(v).bits == 0x4200_0000,
        v.nan() ==> clipped(v) == v,
{
}

/// The frames that await their memory are the prompted frames without one, each once, in order.
pub proof fn frames_without_memory_are_pending(clip: Clip, f: i32)
    requires
        clip.cond.dom().finite(),
    ensures
        pending_frames(clip).contains(f) <==> clip.cond.contains_key(f)
            && clip.cond[f].maskmem_features is None,
{
    let keys = in_order(clip.cond.dom());
    in_order_of_finite(clip.cond.dom());
    let (p, g) = (lacks_memory(clip, keys), frame_at(keys));
    let pending = pending_frames(clip);
    if clip.cond.contains_key(f) && clip.cond[f].maskmem_features is None {
        assert(keys.to_set().contains(f));
        picked_complete(keys.len(), p, g, keys.index_of(f));
    }
    if pending.contains(f) {
        let k = choose|k: int| 0 <= k < pending.len() && pending[k] == f;
        let i = picked_sound(keys.len(), p, g, k);
        assert(keys.to_set().contains(keys[i]));
        assert(clip.cond.contains_key(keys[i]));
    }
}

/// What each event leaves on the record of a clip.
pub proof fn events_are_recorded(
    clip: Clip,
    frame_idx: i32,
    out: FrameOut,
    points: (u64, u64),
    a: u64,
    b: u64,
)
    ensures
        with_points(clip, frame_idx, points).points[frame_idx] == points,
        with_points(clip, frame_idx, points).cond == clip.cond,
        with_points(clip, frame_idx, points).non_cond == clip.non_cond,
        with_prompted(clip, frame_idx, out, a).cond[frame_idx] == out,
        with_prompted(clip, frame_idx, out, a).points == clip.points,
        with_prompted(clip, frame_idx, out, a).frames_tracked == clip.frames_tracked,
        with_propagated(clip, frame_idx, out).non_cond[frame_idx] == out,
        with_propagated(clip, frame_idx, out).cond == clip.cond,
        with_propagated(clip, frame_idx, out).points == clip.points,
        with_propagated(clip, frame_idx, out).frames_tracked[frame_idx] == false,
        !tracked_direction(with_passed(clip, frame_idx), frame_idx),
        with_memory(clip, frame_idx, a, b).cond[frame_idx].maskmem_features == Some(a),
        with_memory(clip, frame_idx, a, b).cond[frame_idx].maskmem_pos_enc == Some(b),
        with_memory(clip, frame_idx, a, b).cond[frame_idx].pred_masks
            == clip.cond[frame_idx].pred_masks,
        with_memory(clip, frame_idx, a, b).cond[frame_idx].obj_ptr == clip.cond[frame_idx].obj_ptr,
{
}

/// Propagation goes over every frame from the first prompted one to the end of the clip, in order.
pub proof fn propagation_runs_to_the_end(start: i32, num_frames: i32, f: i32)
    requires
        0 <= start,
    ensures
        frames_from(start, num_frames).contains(f) <==> start <= f < num_frames,
        forall|i: int|
            0 <= i < frames_from(start, num_frames).len() ==> #[trigger] frames_from(
                start,
                num_frames,
            )[i] == start + i,
{
    if start <= f < num_frames {
        assert(frames_from(start, num_frames)[f - start] == f);
    }
}

/// Propagation starts at the earliest prompted frame and goes over every prompted frame of the clip.
pub proof fn propagation_starts_at_the_first_prompt(clip: Clip, start: i32, g: i32)
    requires
        is_first(clip.cond.dom(), start),
        0 <= start,
        clip.cond.contains_key(g),
        g < clip.num_frames,
    ensures
        clip.cond.contains_key(start),
        start <= g,
        frames_from(start, clip.num_frames).contains(g),
{
    assert(clip.cond.dom().contains(g));
    propagation_runs_to_the_end(start, clip.num_frames, g);
}

/// A frame counts as tracked backwards only where that is on record.
pub proof fn frames_are_tracked_as_recorded(clip: Clip, f: i32)
    ensures
        !clip.frames_tracked.contains_key(f) ==> !tracked_direction(clip, f),
        clip.frames_tracked.contains_key(f) ==> tracked_direction(clip, f)
            == clip.frames_tracked[f],
{
}

/// The pointers of prompted frames come before all others, so that sixteen of them are read before
/// any propagated one.
pub proof fn prompted_pointers_come_first(clip: Clip, frame_idx: i32, f: i32)
    requires
        clip.valid(),
        clip.cond.dom().finite(),
        clip.cond.dom().len() <= 16,
        0 <= f <= frame_idx <= FRAME_LIMIT,
        clip.cond.contains_key(f),
    ensures
        pointer_bank(clip, frame_idx, false).contains(
            ((frame_idx - f) as i32, clip.cond[f].obj_ptr),
        ),
{
    let keys = in_order(clip.cond.dom());
    in_order_of_finite(clip.cond.dom());
    assert(keys.no_duplicates());
    keys.unique_seq_to_set();
    let (p, g) = (
        in_past(keys, frame_idx, false),
        prompted_pointer(clip, keys, frame_idx, false),
    );
    let first = picked(keys.len(), p, g);
    picked_length(keys.len(), p, g);
    tally_bounds(Seq::new(keys.len(), p));
    assert(first.len() <= 16);
    assert(keys.to_set().contains(f));
    let i = keys.index_of(f);
    picked_complete(keys.len(), p, g, i);
    let k = choose|k: int| 0 <= k < first.len() && first[k] == g(i);
    assert(all_pointers(clip, frame_idx, false)[k] == g(i));
    assert(pointer_bank(clip, frame_idx, false)[k] == g(i));
}

/// What is said without a prompt, and of points and labels that do not match.
pub proof fn video_errors_in_words(points: usize, labels: usize)
    ensures
        (VideoError::PointLabelMismatch { points, labels }).text()
            == "sam2 add_correction_points: points/labels length mismatch ("@ + digits(
            points as nat,
        ) + " vs "@ + digits(labels as nat) + ")"@,
{
}

} // verus!
