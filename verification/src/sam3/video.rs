//! The multi-object tracking session.
//!
//! A frame is processed in two steps around the neural network. Before either, `gather_memory`
//! says what each object reads from its memory; the backend decodes each object from that.
//! `track_frame` then takes the decoded masks and the detections and decides everything about the
//! frame. The backend encodes the masks it is told to encode and decodes the new objects, and
//! `finish_frame` stores the results and gives the output of the frame.
use super::association::{associate, associated, Assoc, Detection, Scene, HIGH_CONF_THRESH};
use super::hotstart::{contains_id, observed, removals, Hotstart, Watch};
use super::masks::{
    any_covered, area, binarize, constrained, copy_mask, positive, rows,
    suppress_pw_area_shrinkage,
    uniform,
};
use super::memory::{
    conditioning_pointers_are_read, encoded, frames_valid, latest_conditioning_is_read, memory_at,
    object_pointers, pointer_span, recent_memory_is_read, recent_pointers_are_read, spatial_memory,
    Bank, FrameMem, MemoryPlan, ObjectBank,
};
use super::occlusion::{rivals, suppress_overlapping_recent_occlusion};
use crate::binary32::Binary32;
use crate::collect::{
    in_order, in_order_of_finite, ordered_keys, picked, picked_complete, picked_length,
    picked_sound, tally_bounds,
};
use std::collections::BTreeMap;
use vstd::prelude::*;

verus! {

broadcast use vstd::laws_cmp::group_laws_cmp;

/// The side of a mask in pixels.
pub const LOW_RES: i32 = 288;

/// The score that a detection has to exceed: one half.
pub const SCORE_THRESH_DET: u32 = 0x3f00_0000;

/// The logit from which a pixel of a detection enters the mask prompt: one half.
pub const MASK_PROMPT_THRESH: u32 = 0x3f00_0000;

/// The interval in frames at which confirmed tracks are reconditioned.
pub const RECONDITION_EVERY: i32 = 16;

/// The score of an object that appears on a frame: ten.
pub const APPEARING: u32 = 0x4120_0000;

/// The score of an object that does not appear on a frame: minus ten.
pub const ABSENT: u32 = 0xc120_0000;

/// One.
pub const ONE: u32 = 0x3f80_0000;

/// The result of a frame: each object's mask logits, in id order.
pub struct VideoFrameOutput {
    pub obj_ids: Vec<i32>,
    pub masks: Vec<Vec<Binary32>>,
}

/// The state of a tracking session.
pub struct Sam3VideoModel {
    /// The tracked objects; a position in this list names an object in the other lists.
    pub obj_ids: Vec<i32>,
    pub banks: Vec<ObjectBank>,
    /// The prompt that each object answers.
    pub obj_prompt: Vec<i32>,
    pub max_obj_id: i32,
    pub num_frames: i32,
    pub hotstart: Hotstart,
    pub last_occluded: BTreeMap<i32, i32>,
}

/// The state as mathematical values.
#[verifier::ext_equal]
pub struct Session {
    pub obj_ids: Seq<i32>,
    pub banks: Seq<Bank>,
    pub prompts: Seq<i32>,
    pub max_obj_id: i32,
    pub num_frames: i32,
    pub watch: Watch,
    pub last_occluded: Map<i32, i32>,
}

/// The memories of several objects.
pub open spec fn bank_views(banks: Seq<ObjectBank>) -> Seq<Bank> {
    banks.map_values(|b: ObjectBank| b@)
}

impl View for Sam3VideoModel {
    type V = Session;

    open spec fn view(&self) -> Session {
        Session {
            obj_ids: self.obj_ids@,
            banks: bank_views(self.banks@),
            prompts: self.obj_prompt@,
            max_obj_id: self.max_obj_id,
            num_frames: self.num_frames,
            watch: self.hotstart@,
            last_occluded: self.last_occluded@,
        }
    }
}

/// Strictly increasing ids, none above `max`.
pub open spec fn ids_valid(ids: Seq<i32>, max: i32) -> bool {
    &&& forall|i: int, j: int| 0 <= i < j < ids.len() ==> ids[i] < ids[j]
    &&& forall|i: int| 0 <= i < ids.len() ==> 0 <= #[trigger] ids[i] <= max
}

impl Session {
    /// The lists run in parallel, ids increase, and memories lie at valid frames.
    pub open spec fn valid(self) -> bool {
        &&& self.banks.len() == self.obj_ids.len()
        &&& self.prompts.len() == self.obj_ids.len()
        &&& -1 <= self.max_obj_id
        &&& ids_valid(self.obj_ids, self.max_obj_id)
        &&& forall|j: int| 0 <= j < self.banks.len() ==> frames_valid(#[trigger] self.banks[j])
    }

    /// The session with one object more.
    pub open spec fn with_object(self, id: i32, prompt: i32, bank: Bank) -> Session {
        Session {
            obj_ids: self.obj_ids.push(id),
            banks: self.banks.push(bank),
            prompts: self.prompts.push(prompt),
            max_obj_id: if self.max_obj_id < id {
                id
            } else {
                self.max_obj_id
            },
            ..self
        }
    }

    /// The session without an object.
    pub open spec fn without_object(self, id: i32) -> Session {
        if self.obj_ids.contains(id) {
            let k = self.obj_ids.index_of(id);
            Session {
                obj_ids: self.obj_ids.remove(k),
                banks: self.banks.remove(k),
                prompts: self.prompts.remove(k),
                ..self
            }
        } else {
            self
        }
    }

    /// The session without several objects.
    pub open spec fn without_objects(self, ids: Seq<i32>) -> Session
        decreases ids.len(),
    {
        if ids.len() == 0 {
            self
        } else {
            self.without_objects(ids.drop_last()).without_object(ids.last())
        }
    }
}

/// The memory with the output of a tracked frame that has not been encoded yet.
pub open spec fn tracked_bank(bank: Bank, frame_idx: i32, pointer: u64, score: Binary32) -> Bank {
    Bank {
        non_cond: bank.non_cond.insert(
            frame_idx,
            FrameMem {
                maskmem_features: None,
                maskmem_pos_enc: None,
                object_pointer: pointer,
                object_score: score,
            },
        ),
        ..bank
    }
}

/// An output with its encoded memory.
pub open spec fn encoded_output(m: FrameMem, memory: (u64, u64), score: Binary32) -> FrameMem {
    FrameMem {
        maskmem_features: Some(memory.0),
        maskmem_pos_enc: Some(memory.1),
        object_pointer: m.object_pointer,
        object_score: score,
    }
}

/// The memory after a frame has been encoded: the entry of the frame, a conditioning one before a
/// tracked one, receives the memory and the score.
pub open spec fn encoded_bank(
    bank: Bank,
    frame_idx: i32,
    memory: (u64, u64),
    score: Binary32,
) -> Bank {
    if bank.cond.contains_key(frame_idx) {
        Bank {
            cond: bank.cond.insert(
                frame_idx,
                encoded_output(bank.cond[frame_idx], memory, score),
            ),
            ..bank
        }
    } else if bank.non_cond.contains_key(frame_idx) {
        Bank {
            non_cond: bank.non_cond.insert(
                frame_idx,
                encoded_output(bank.non_cond[frame_idx], memory, score),
            ),
            ..bank
        }
    } else {
        bank
    }
}

/// The memory with a tracked frame turned into a conditioning frame.
pub open spec fn reconditioned_bank(bank: Bank, frame_idx: i32) -> Bank {
    if bank.non_cond.contains_key(frame_idx) {
        Bank {
            cond: bank.cond.insert(frame_idx, bank.non_cond[frame_idx]),
            non_cond: bank.non_cond.remove(frame_idx),
        }
    } else {
        bank
    }
}

/// The memory of a new object.
pub open spec fn seeded_bank(frame_idx: i32, seed: FrameMem) -> Bank {
    Bank { cond: Map::empty().insert(frame_idx, seed), non_cond: Map::empty() }
}

/// The score that stands for the presence of an object with this mask.
pub open spec fn presence(mask: Seq<Binary32>) -> Binary32 {
    if area(mask) > 0 {
        Binary32 { bits: APPEARING }
    } else {
        Binary32 { bits: ABSENT }
    }
}

pub open spec fn confident(ids: Seq<i32>, keys: Seq<i32>, scores: Seq<Binary32>) -> spec_fn(
    int,
) -> bool {
    |k: int|
        ids.contains(keys[k]) && (Binary32 { bits: HIGH_CONF_THRESH }).less(
            scores[ids.index_of(keys[k])],
        )
}

pub open spec fn key_of(keys: Seq<i32>) -> spec_fn(int) -> i32 {
    |k: int| keys[k]
}

/// The tracks that turn this frame into a conditioning frame: on every so many frames those that
/// a detection confirms and whose own score is high, in id order.
pub open spec fn reconditioned_ids(
    frame_idx: i32,
    ids: Seq<i32>,
    scores: Seq<Binary32>,
    confirmed: Set<i32>,
) -> Seq<i32> {
    if frame_idx % RECONDITION_EVERY == 0 {
        let keys = in_order(confirmed);
        picked(keys.len(), confident(ids, keys, scores), key_of(keys))
    } else {
        Seq::empty()
    }
}

/// What a frame decided.
pub struct FramePlan {
    /// The objects at the start of the frame.
    pub existing: Vec<i32>,
    pub assoc: Assoc,
    pub new_obj_ids: Vec<i32>,
    pub removed_now: Vec<i32>,
    pub reconditioned: Vec<i32>,
    /// Per existing object, the mask to show.
    pub trk_masks: Vec<Vec<Binary32>>,
    /// Per existing object, the mask to encode into memory.
    pub memory_masks: Vec<Vec<Binary32>>,
    /// Per existing object, the score that goes with the encoded mask.
    pub memory_scores: Vec<Binary32>,
}

/// The plan belongs to the session and the detections.
pub open spec fn plan_fits(s: Session, detections: nat, plan: FramePlan) -> bool {
    &&& plan.existing@ == s.obj_ids
    &&& plan.trk_masks@.len() == s.obj_ids.len()
    &&& plan.memory_masks@.len() == s.obj_ids.len()
    &&& plan.memory_scores@.len() == s.obj_ids.len()
    &&& plan.new_obj_ids@.len() == plan.assoc.new_det_inds@.len()
    &&& forall|i: int|
        0 <= i < plan.new_obj_ids@.len() ==> #[trigger] plan.new_obj_ids@[i] == s.max_obj_id + 1
            + i
    &&& forall|i: int|
        0 <= i < plan.assoc.new_det_inds@.len() ==> #[trigger] plan.assoc.new_det_inds@[i]
            < detections
    &&& forall|id: i32|
        #[trigger] plan.assoc.trk_id_to_max_iou_high_conf_det@.contains_key(id)
            ==> plan.assoc.trk_id_to_max_iou_high_conf_det@[id] < detections
}

/// Everything that a frame decides from the state before it.
pub open spec fn decided(
    s: Session,
    frame_idx: i32,
    detections: Seq<Detection>,
    masks: Seq<Seq<Binary32>>,
    scores: Seq<Binary32>,
    plan: FramePlan,
) -> bool {
    let n = s.obj_ids.len();
    let seen = observed(
        s.watch,
        frame_idx,
        rows(plan.assoc.det_to_matched_trk@),
        plan.assoc.unmatched_trk@,
        plan.new_obj_ids@,
    );
    let r = rivals(s.last_occluded, s.obj_ids, s.prompts, masks, plan.removed_now@);
    &&& associated(
        (Scene { detections, obj_ids: s.obj_ids, prompts: s.prompts, masks }),
        plan.assoc,
    )
    &&& plan.removed_now@ == removals(seen, frame_idx)
    &&& plan.reconditioned@ == reconditioned_ids(
        frame_idx,
        s.obj_ids,
        scores,
        plan.assoc.trk_id_to_max_iou_high_conf_det@.dom(),
    )
    &&& rows(plan.trk_masks@) == Seq::new(n, |j: int| r.cleared(j))
    &&& rows(plan.memory_masks@) == Seq::new(
        n,
        |j: int| constrained(rows(plan.trk_masks@), s.prompts, j),
    )
    &&& plan.memory_scores@ == Seq::new(n, |j: int| presence(rows(plan.memory_masks@)[j]))
}

/// The state between the two steps of a frame.
pub open spec fn tracked_session(
    s: Session,
    frame_idx: i32,
    masks: Seq<Seq<Binary32>>,
    pointers: Seq<u64>,
    scores: Seq<Binary32>,
    plan: FramePlan,
) -> Session {
    let seen = observed(
        s.watch,
        frame_idx,
        rows(plan.assoc.det_to_matched_trk@),
        plan.assoc.unmatched_trk@,
        plan.new_obj_ids@,
    );
    let r = rivals(s.last_occluded, s.obj_ids, s.prompts, masks, plan.removed_now@);
    Session {
        banks: Seq::new(
            s.banks.len(),
            |j: int| tracked_bank(s.banks[j], frame_idx, pointers[j], scores[j]),
        ),
        watch: Watch { removed: seen.removed.union(plan.removed_now@.to_set()), ..seen },
        last_occluded: r.recorded(s.last_occluded, s.obj_ids, frame_idx, s.obj_ids.len()),
        ..s
    }
}

/// The position of an id.
pub fn position_of(ids: &[i32], id: i32) -> (r: Option<usize>)
    ensures
        match r {
            Some(k) => k < ids@.len() && ids@[k as int] == id && forall|i: int|
                0 <= i < k ==> ids@[i] != id,
            None => !ids@.contains(id),
        },
{
    let mut i: usize = 0;
    while i < ids.len()
        invariant
            i <= ids@.len(),
            forall|k: int| 0 <= k < i ==> ids@[k] != id,
        decreases ids@.len() - i,
    {
        if ids[i] == id {
            return Some(i);
        }
        i = i + 1;
    }
    None
}

proof fn position_is_unique(ids: Seq<i32>, max: i32, k: int)
    requires
        ids_valid(ids, max),
        0 <= k < ids.len(),
    ensures
        ids.contains(ids[k]),
        ids.index_of(ids[k]) == k,
{
    let h = ids.index_of(ids[k]);
    assert(ids.contains(ids[k]));
    assert(0 <= h < ids.len() && ids[h] == ids[k]);
    if h < k {
        assert(ids[h] < ids[k]);
    }
    if k < h {
        assert(ids[k] < ids[h]);
    }
}

fn select_reconditioned(
    frame_idx: i32,
    obj_ids: &[i32],
    max_obj_id: Ghost<i32>,
    scores: &[Binary32],
    confirmed: &BTreeMap<i32, usize>,
) -> (r: Vec<i32>)
    requires
        0 <= frame_idx,
        ids_valid(obj_ids@, max_obj_id@),
        scores@.len() == obj_ids@.len(),
    ensures
        r@ == reconditioned_ids(frame_idx, obj_ids@, scores@, confirmed@.dom()),
{
    let mut r: Vec<i32> = Vec::new();
    if frame_idx % RECONDITION_EVERY == 0 {
        let keys: Vec<i32> = ordered_keys(confirmed);
        let threshold = Binary32 { bits: HIGH_CONF_THRESH };
        let ghost p = confident(obj_ids@, keys@, scores@);
        let ghost f = key_of(keys@);
        let mut k: usize = 0;
        while k < keys.len()
            invariant
                k <= keys@.len(),
                ids_valid(obj_ids@, max_obj_id@),
                scores@.len() == obj_ids@.len(),
                threshold == (Binary32 { bits: HIGH_CONF_THRESH }),
                p == confident(obj_ids@, keys@, scores@),
                f == key_of(keys@),
                r@ == picked(k as nat, p, f),
            decreases keys@.len() - k,
        {
            let id: i32 = keys[k];
            if let Some(idx) = position_of(obj_ids, id) {
                proof {
                    position_is_unique(obj_ids@, max_obj_id@, idx as int);
                }
                if scores[idx].gt(&threshold) {
                    r.push(id);
                }
            }
            k = k + 1;
        }
    }
    r
}

/// The presence score of each mask.
fn presence_scores(masks: &[Vec<Binary32>]) -> (r: Vec<Binary32>)
    ensures
        r@ == Seq::new(masks@.len(), |j: int| presence(rows(masks@)[j])),
{
    let mut r: Vec<Binary32> = Vec::new();
    let mut j: usize = 0;
    while j < masks.len()
        invariant
            j <= masks@.len(),
            r@ == Seq::new(j as nat, |k: int| presence(rows(masks@)[k])),
        decreases masks@.len() - j,
    {
        let shape: Vec<bool> = binarize(&masks[j]);
        assert(rows(masks@)[j as int] == masks@[j as int]@);
        if any_covered(&shape) {
            r.push(Binary32 { bits: APPEARING });
        } else {
            r.push(Binary32 { bits: ABSENT });
        }
        j = j + 1;
        assert(r@ =~= Seq::new(j as nat, |k: int| presence(rows(masks@)[k])));
    }
    r
}

impl Sam3VideoModel {
    pub open spec fn wf(&self) -> bool {
        &&& self.hotstart.wf()
        &&& self@.valid()
    }

    /// A session without objects.
    pub fn new() -> (r: Sam3VideoModel)
        ensures
            r.wf(),
            r@.obj_ids == Seq::<i32>::empty(),
            r@.max_obj_id == -1,
            r@.num_frames == 0,
            r@.last_occluded == Map::<i32, i32>::empty(),
            r@.watch == (Watch {
                first_frame: Map::empty(),
                unmatched_frames: Map::empty(),
                keep_alive: Map::empty(),
                overlap_pairs: Map::empty(),
                removed: Set::empty(),
            }),
    {
        Sam3VideoModel {
            obj_ids: Vec::new(),
            banks: Vec::new(),
            obj_prompt: Vec::new(),
            max_obj_id: -1,
            num_frames: 0,
            hotstart: Hotstart::new(),
            last_occluded: BTreeMap::new(),
        }
    }

    /// Announce the length of the video that is about to be processed.
    pub fn begin_video(&mut self, num_frames: i32)
        requires
            old(self).wf(),
        ensures
            final(self).wf(),
            final(self)@ == (Session { num_frames, ..old(self)@ }),
    {
        self.num_frames = num_frames;
    }

    /// What an object reads from its memory on a frame.
    pub fn gather_memory(&self, obj_idx: usize, frame_idx: i32) -> (r: MemoryPlan)
        requires
            self.wf(),
            obj_idx < self@.obj_ids.len(),
            0 <= frame_idx,
        ensures
            r.spatial@ == spatial_memory(self@.banks[obj_idx as int], frame_idx),
            r.pointers@ == object_pointers(
                self@.banks[obj_idx as int],
                frame_idx,
                self@.num_frames,
            ),
            r.max_object_pointers == pointer_span(self@.num_frames),
    {
        assert(self@.banks[obj_idx as int] == self.banks@[obj_idx as int]@);
        self.banks[obj_idx].gather_memory(frame_idx, self.num_frames)
    }

    fn add_object(&mut self, obj_id: i32, prompt_id: i32, bank: ObjectBank)
        ensures
            final(self).hotstart == old(self).hotstart,
            final(self)@ == old(self)@.with_object(obj_id, prompt_id, bank@),
    {
        let ghost before = self.banks@;
        self.obj_ids.push(obj_id);
        self.banks.push(bank);
        self.obj_prompt.push(prompt_id);
        if self.max_obj_id < obj_id {
            self.max_obj_id = obj_id;
        }
        assert(bank_views(self.banks@) =~= bank_views(before).push(bank@));
    }

    fn remove_object(&mut self, obj_id: i32)
        requires
            old(self).wf(),
        ensures
            final(self).wf(),
            final(self).hotstart == old(self).hotstart,
            final(self)@ == old(self)@.without_object(obj_id),
    {
        let ghost before = self@;
        if let Some(idx) = position_of(&self.obj_ids, obj_id) {
            proof {
                position_is_unique(self.obj_ids@, self.max_obj_id, idx as int);
            }
            let ghost banks = self.banks@;
            self.obj_ids.remove(idx);
            self.banks.remove(idx);
            self.obj_prompt.remove(idx);
            proof {
                assert(bank_views(self.banks@) =~= bank_views(banks).remove(idx as int));
                assert(self@ == before.without_object(obj_id));
                let ids = self@.obj_ids;
                assert forall|i: int, j: int| 0 <= i < j < ids.len() implies ids[i] < ids[j] by {
                    let (a, b) = (
                        if i < idx {
                            i
                        } else {
                            i + 1
                        },
                        if j < idx {
                            j
                        } else {
                            j + 1
                        },
                    );
                    assert(before.obj_ids[a] < before.obj_ids[b]);
                }
                assert forall|i: int| 0 <= i < ids.len() implies 0 <= #[trigger] ids[i]
                    <= self@.max_obj_id by {
                    assert(before.obj_ids[if i < idx {
                        i
                    } else {
                        i + 1
                    }] <= before.max_obj_id);
                }
                assert forall|j: int| 0 <= j < self@.banks.len() implies frames_valid(
                    #[trigger] self@.banks[j],
                ) by {
                    assert(self@.banks[j] == before.banks[if j < idx {
                        j
                    } else {
                        j + 1
                    }]);
                }
            }
        }
    }

    /// Enter the outputs of a tracked frame, not encoded yet, into the memories.
    fn record_tracked(&mut self, frame_idx: i32, pointers: &[u64], scores: &[Binary32])
        requires
            old(self).wf(),
            0 <= frame_idx,
            pointers@.len() == old(self)@.obj_ids.len(),
            scores@.len() == old(self)@.obj_ids.len(),
        ensures
            final(self).wf(),
            final(self)@ == (Session {
                banks: Seq::new(
                    old(self)@.banks.len(),
                    |j: int|
                        tracked_bank(old(self)@.banks[j], frame_idx, pointers@[j], scores@[j]),
                ),
                ..old(self)@
            }),
    {
        let ghost before = *self;
        let mut j: usize = 0;
        while j < self.banks.len()
            invariant
                j <= self.banks@.len() == before.banks@.len(),
                before.wf(),
                0 <= frame_idx,
                pointers@.len() == before.banks@.len(),
                scores@.len() == before.banks@.len(),
                *self == (Sam3VideoModel { banks: self.banks, ..before }),
                forall|k: int|
                    0 <= k < j ==> (#[trigger] self.banks@[k])@ == tracked_bank(
                        before@.banks[k],
                        frame_idx,
                        pointers@[k],
                        scores@[k],
                    ),
                forall|k: int|
                    j <= k < self.banks@.len() ==> (#[trigger] self.banks@[k])@ == before@.banks[k],
            decreases self.banks@.len() - j,
        {
            let entry = FrameMem {
                maskmem_features: None,
                maskmem_pos_enc: None,
                object_pointer: pointers[j],
                object_score: scores[j],
            };
            self.banks[j].non_cond.insert(frame_idx, entry);
            j = j + 1;
        }
        proof {
            let banks = Seq::new(
                before@.banks.len(),
                |j: int| tracked_bank(before@.banks[j], frame_idx, pointers@[j], scores@[j]),
            );
            assert(bank_views(self.banks@) =~= banks);
            assert forall|j: int| 0 <= j < self@.banks.len() implies frames_valid(
                #[trigger] self@.banks[j],
            ) by {
                assert(frames_valid(before@.banks[j]));
                assert(self@.banks[j] == tracked_bank(
                    before@.banks[j],
                    frame_idx,
                    pointers@[j],
                    scores@[j],
                ));
            }
        }
    }

    /// Decide a frame from the decoded masks of the existing objects and the detections.
    pub fn track_frame(
        &mut self,
        frame_idx: i32,
        detections: &[Detection],
        trk_masks: Vec<Vec<Binary32>>,
        pointers: &[u64],
        scores: &[Binary32],
    ) -> (plan: FramePlan)
        requires
            old(self).wf(),
            0 <= frame_idx,
            trk_masks@.len() == old(self)@.obj_ids.len(),
            pointers@.len() == old(self)@.obj_ids.len(),
            scores@.len() == old(self)@.obj_ids.len(),
            uniform(rows(trk_masks@)),
            old(self)@.max_obj_id + detections@.len() <= i32::MAX,
        ensures
            final(self).wf(),
            plan_fits(final(self)@, detections@.len(), plan),
            decided(old(self)@, frame_idx, detections@, rows(trk_masks@), scores@, plan),
            final(self)@ == tracked_session(
                old(self)@,
                frame_idx,
                rows(trk_masks@),
                pointers@,
                scores@,
                plan,
            ),
    {
        let ghost before = self@;
        let ghost grid = rows(trk_masks@);
        let ghost scene = Scene {
            detections: detections@,
            obj_ids: before.obj_ids,
            prompts: before.prompts,
            masks: grid,
        };
        let mut masks = trk_masks;
        let n: usize = masks.len();
        self.record_tracked(frame_idx, pointers, scores);
        let assoc = associate(detections, &self.obj_ids, &self.obj_prompt, &masks);
        proof {
            associations_are_in_range(scene, assoc);
        }
        let mut new_obj_ids: Vec<i32> = Vec::new();
        let mut i: usize = 0;
        while i < assoc.new_det_inds.len()
            invariant
                i <= assoc.new_det_inds@.len() <= detections@.len(),
                -1 <= self.max_obj_id,
                self.max_obj_id + detections@.len() <= i32::MAX,
                new_obj_ids@.len() == i,
                forall|k: int|
                    0 <= k < i ==> #[trigger] new_obj_ids@[k] == self.max_obj_id + 1 + k,
            decreases assoc.new_det_inds@.len() - i,
        {
            new_obj_ids.push(self.max_obj_id + 1 + i as i32);
            i = i + 1;
        }
        let removed_now: Vec<i32> = self.hotstart.process_hotstart(
            frame_idx,
            &assoc,
            &new_obj_ids,
        );
        let reconditioned: Vec<i32> = select_reconditioned(
            frame_idx,
            &self.obj_ids,
            Ghost(self.max_obj_id),
            scores,
            &assoc.trk_id_to_max_iou_high_conf_det,
        );
        suppress_overlapping_recent_occlusion(
            &mut self.last_occluded,
            frame_idx,
            &self.obj_ids,
            &self.obj_prompt,
            &mut masks,
            &removed_now,
        );
        let ghost r = rivals(
            before.last_occluded,
            before.obj_ids,
            before.prompts,
            grid,
            removed_now@,
        );
        proof {
            assert(rows(masks@) == Seq::new(n as nat, |j: int| r.cleared(j)));
            assert(rows(masks@).len() == masks@.len());
            assert forall|j: int| 0 <= j < n implies (#[trigger] masks@[j])@.len()
                == grid[j].len() by {
                assert(rows(masks@)[j] == masks@[j]@);
                assert(rows(masks@)[j] == r.cleared(j));
            }
            assert(uniform(rows(masks@))) by {
                assert forall|i: int, j: int|
                    #![trigger rows(masks@)[i], rows(masks@)[j]]
                    0 <= i < n && 0 <= j < n implies rows(masks@)[i].len() == rows(
                    masks@,
                )[j].len() by {
                    assert(masks@[i]@.len() == grid[i].len());
                    assert(masks@[j]@.len() == grid[j].len());
                }
            }
        }
        let memory_masks: Vec<Vec<Binary32>> = suppress_pw_area_shrinkage(
            &masks,
            &self.obj_prompt,
        );
        assert(rows(memory_masks@) =~= Seq::new(
            n as nat,
            |j: int| constrained(rows(masks@), before.prompts, j),
        ));
        let memory_scores: Vec<Binary32> = presence_scores(&memory_masks);
        let existing: Vec<i32> = copy_ids(&self.obj_ids);
        FramePlan {
            existing,
            assoc,
            new_obj_ids,
            removed_now,
            reconditioned,
            trk_masks: masks,
            memory_masks,
            memory_scores,
        }
    }
}

fn copy_ids(ids: &[i32]) -> (r: Vec<i32>)
    ensures
        r@ == ids@,
{
    let mut r: Vec<i32> = Vec::new();
    let mut i: usize = 0;
    while i < ids.len()
        invariant
            i <= ids@.len(),
            r@ == ids@.take(i as int),
        decreases ids@.len() - i,
    {
        r.push(ids[i]);
        assert(ids@.take(i + 1) =~= ids@.take(i as int).push(ids@[i as int]));
        i = i + 1;
    }
    assert(ids@.take(ids@.len() as int) =~= ids@);
    r
}

proof fn confirmations_in_range(scene: Scene, n: nat)
    requires
        n <= scene.detections.len() <= usize::MAX,
    ensures
        forall|id: i32|
            #[trigger] scene.confirmations(n).contains_key(id) ==> scene.confirmations(n)[id]
                < scene.detections.len(),
    decreases n,
{
    if n > 0 {
        let earlier = scene.confirmations((n - 1) as nat);
        confirmations_in_range(scene, (n - 1) as nat);
        assert forall|id: i32| #[trigger] scene.confirmations(
            n,
        ).contains_key(id) implies scene.confirmations(n)[id] < scene.detections.len() by {
            assert(earlier.contains_key(id) ==> earlier[id] < scene.detections.len());
        }
    } else {
        assert(scene.confirmations(n) == Map::<i32, usize>::empty());
    }
}

/// Associations name detections that exist.
proof fn associations_are_in_range(scene: Scene, a: Assoc)
    requires
        associated(scene, a),
        scene.detections.len() <= usize::MAX,
    ensures
        a.new_det_inds@.len() <= scene.detections.len(),
        forall|i: int|
            0 <= i < a.new_det_inds@.len() ==> #[trigger] a.new_det_inds@[i]
                < scene.detections.len(),
        forall|id: i32|
            #[trigger] a.trk_id_to_max_iou_high_conf_det@.contains_key(id)
                ==> a.trk_id_to_max_iou_high_conf_det@[id] < scene.detections.len(),
{
    let n = scene.detections.len();
    if scene.masks.len() > 0 {
        let (p, f) = (scene.starting(), scene.index_of());
        picked_length(n, p, f);
        tally_bounds(Seq::new(n, p));
        assert forall|i: int| 0 <= i < a.new_det_inds@.len() implies #[trigger] a.new_det_inds@[i]
            < n by {
            let k = picked_sound(n, p, f, i);
        }
        confirmations_in_range(scene, n);
    }
}

/// The memories of the existing objects at the end of a frame.
pub open spec fn settled_banks(
    s: Session,
    frame_idx: i32,
    plan: FramePlan,
    memories: Seq<(u64, u64)>,
) -> Seq<Bank> {
    Seq::new(
        s.banks.len(),
        |j: int|
            {
                let bank = encoded_bank(
                    s.banks[j],
                    frame_idx,
                    memories[j],
                    plan.memory_scores@[j],
                );
                if plan.reconditioned@.contains(s.obj_ids[j]) {
                    reconditioned_bank(bank, frame_idx)
                } else {
                    bank
                }
            },
    )
}

/// The session with the first `n` new objects of a frame.
pub open spec fn with_new_objects(
    s: Session,
    frame_idx: i32,
    plan: FramePlan,
    detections: Seq<Detection>,
    seeds: Seq<FrameMem>,
    n: nat,
) -> Session
    decreases n,
{
    if n == 0 {
        s
    } else {
        with_new_objects(s, frame_idx, plan, detections, seeds, (n - 1) as nat).with_object(
            plan.new_obj_ids@[n - 1],
            detections[plan.assoc.new_det_inds@[n - 1] as int].prompt_id,
            seeded_bank(frame_idx, seeds[n - 1]),
        )
    }
}

/// The state at the end of a frame.
pub open spec fn finished_session(
    s: Session,
    frame_idx: i32,
    plan: FramePlan,
    detections: Seq<Detection>,
    memories: Seq<(u64, u64)>,
    seeds: Seq<FrameMem>,
) -> Session {
    with_new_objects(
        Session { banks: settled_banks(s, frame_idx, plan, memories), ..s },
        frame_idx,
        plan,
        detections,
        seeds,
        plan.new_obj_ids@.len(),
    ).without_objects(plan.removed_now@)
}

/// The mask that is shown for the `j`-th existing object: that of the confirming detection where
/// the object was reconditioned, otherwise its tracked mask.
pub open spec fn shown_mask(plan: FramePlan, detections: Seq<Detection>, j: int) -> Seq<Binary32> {
    let id = plan.existing@[j];
    let confirmed = plan.assoc.trk_id_to_max_iou_high_conf_det@;
    if plan.reconditioned@.contains(id) && confirmed.contains_key(id) {
        detections[confirmed[id] as int].mask@
    } else {
        plan.trk_masks@[j]@
    }
}

/// The output of a frame: the existing objects, then the new ones with their detections.
pub open spec fn shown(plan: FramePlan, detections: Seq<Detection>, out: VideoFrameOutput) -> bool {
    let n = plan.existing@.len();
    &&& out.obj_ids@ == plan.existing@ + plan.new_obj_ids@
    &&& rows(out.masks@) == Seq::new(n, |j: int| shown_mask(plan, detections, j)) + Seq::new(
        plan.new_obj_ids@.len(),
        |k: int| detections[plan.assoc.new_det_inds@[k] as int].mask@,
    )
}

/// The output of a frame.
pub fn build_outputs(detections: &[Detection], plan: &FramePlan) -> (out: VideoFrameOutput)
    requires
        plan.trk_masks@.len() == plan.existing@.len(),
        plan.new_obj_ids@.len() == plan.assoc.new_det_inds@.len(),
        forall|i: int|
            0 <= i < plan.assoc.new_det_inds@.len() ==> #[trigger] plan.assoc.new_det_inds@[i]
                < detections@.len(),
        forall|id: i32|
            #[trigger] plan.assoc.trk_id_to_max_iou_high_conf_det@.contains_key(id)
                ==> plan.assoc.trk_id_to_max_iou_high_conf_det@[id] < detections@.len(),
    ensures
        shown(*plan, detections@, out),
{
    let ghost n = plan.existing@.len();
    let ghost first = Seq::new(n, |j: int| shown_mask(*plan, detections@, j));
    let ghost second = Seq::new(
        plan.new_obj_ids@.len(),
        |k: int| detections@[plan.assoc.new_det_inds@[k] as int].mask@,
    );
    let mut obj_ids: Vec<i32> = Vec::new();
    let mut masks: Vec<Vec<Binary32>> = Vec::new();
    let mut j: usize = 0;
    while j < plan.existing.len()
        invariant
            j <= plan.existing@.len() == n,
            plan.trk_masks@.len() == n,
            first == Seq::new(n, |j: int| shown_mask(*plan, detections@, j)),
            forall|id: i32|
                #[trigger] plan.assoc.trk_id_to_max_iou_high_conf_det@.contains_key(id)
                    ==> plan.assoc.trk_id_to_max_iou_high_conf_det@[id] < detections@.len(),
            obj_ids@ == plan.existing@.take(j as int),
            rows(masks@) == first.take(j as int),
        decreases plan.existing@.len() - j,
    {
        let id: i32 = plan.existing[j];
        obj_ids.push(id);
        let ghost before = masks@;
        let mut shown_det: Option<usize> = None;
        if contains_id(&plan.reconditioned, id) {
            if let Some(d) = plan.assoc.trk_id_to_max_iou_high_conf_det.get(&id) {
                shown_det = Some(*d);
            }
        }
        let mask: Vec<Binary32> = match shown_det {
            Some(d) => copy_mask(&detections[d].mask),
            None => copy_mask(&plan.trk_masks[j]),
        };
        masks.push(mask);
        assert(mask@ == shown_mask(*plan, detections@, j as int));
        assert(rows(masks@) =~= rows(before).push(mask@));
        assert(first.take(j + 1) =~= first.take(j as int).push(first[j as int]));
        assert(plan.existing@.take(j + 1) =~= plan.existing@.take(j as int).push(id));
        j = j + 1;
    }
    assert(first.take(n as int) =~= first);
    assert(plan.existing@.take(n as int) =~= plan.existing@);
    let mut k: usize = 0;
    assert(first + second.take(0) =~= first);
    assert(plan.existing@ + plan.new_obj_ids@.take(0) =~= plan.existing@);
    while k < plan.new_obj_ids.len()
        invariant
            k <= plan.new_obj_ids@.len() == plan.assoc.new_det_inds@.len(),
            second == Seq::new(
                plan.new_obj_ids@.len(),
                |k: int| detections@[plan.assoc.new_det_inds@[k] as int].mask@,
            ),
            forall|i: int|
                0 <= i < plan.assoc.new_det_inds@.len() ==> #[trigger] plan.assoc.new_det_inds@[i]
                    < detections@.len(),
            obj_ids@ == plan.existing@ + plan.new_obj_ids@.take(k as int),
            rows(masks@) == first + second.take(k as int),
        decreases plan.new_obj_ids@.len() - k,
    {
        let ghost before = masks@;
        let d: usize = plan.assoc.new_det_inds[k];
        obj_ids.push(plan.new_obj_ids[k]);
        let mask: Vec<Binary32> = copy_mask(&detections[d].mask);
        masks.push(mask);
        assert(rows(masks@) =~= rows(before).push(mask@));
        assert(first + second.take(k + 1) =~= (first + second.take(k as int)).push(
            second[k as int],
        ));
        assert(plan.existing@ + plan.new_obj_ids@.take(k + 1) =~= (plan.existing@
            + plan.new_obj_ids@.take(k as int)).push(plan.new_obj_ids@[k as int]));
        k = k + 1;
    }
    assert(second.take(second.len() as int) =~= second);
    assert(plan.new_obj_ids@.take(plan.new_obj_ids@.len() as int) =~= plan.new_obj_ids@);
    VideoFrameOutput { obj_ids, masks }
}

impl ObjectBank {
    /// Store the encoded memory of a frame.
    fn store_memory(&mut self, frame_idx: i32, memory: (u64, u64), score: Binary32)
        ensures
            final(self)@ == encoded_bank(old(self)@, frame_idx, memory, score),
    {
        let in_cond: Option<FrameMem> = match self.cond.get(&frame_idx) {
            Some(m) => Some(*m),
            None => None,
        };
        if let Some(m) = in_cond {
            let entry = FrameMem {
                maskmem_features: Some(memory.0),
                maskmem_pos_enc: Some(memory.1),
                object_pointer: m.object_pointer,
                object_score: score,
            };
            self.cond.insert(frame_idx, entry);
        } else {
            let in_tracked: Option<FrameMem> = match self.non_cond.get(&frame_idx) {
                Some(m) => Some(*m),
                None => None,
            };
            if let Some(m) = in_tracked {
                let entry = FrameMem {
                    maskmem_features: Some(memory.0),
                    maskmem_pos_enc: Some(memory.1),
                    object_pointer: m.object_pointer,
                    object_score: score,
                };
                self.non_cond.insert(frame_idx, entry);
            }
        }
    }

    /// Turn a tracked frame into a conditioning frame.
    fn recondition(&mut self, frame_idx: i32)
        ensures
            final(self)@ == reconditioned_bank(old(self)@, frame_idx),
    {
        let ghost before = self@;
        if let Some(m) = self.non_cond.remove(&frame_idx) {
            self.cond.insert(frame_idx, m);
        } else {
            assert(self.non_cond@ =~= before.non_cond);
        }
    }
}

impl Sam3VideoModel {
    /// Store the encoded memories and turn the reconditioned frames.
    fn settle(&mut self, frame_idx: i32, plan: &FramePlan, memories: &[(u64, u64)])
        requires
            old(self).wf(),
            0 <= frame_idx,
            memories@.len() == old(self)@.obj_ids.len(),
            plan.memory_scores@.len() == old(self)@.obj_ids.len(),
        ensures
            final(self).wf(),
            final(self)@ == (Session {
                banks: settled_banks(old(self)@, frame_idx, *plan, memories@),
                ..old(self)@
            }),
    {
        let ghost before = *self;
        let ghost goal = settled_banks(before@, frame_idx, *plan, memories@);
        let mut j: usize = 0;
        while j < self.banks.len()
            invariant
                j <= self.banks@.len() == before.banks@.len() == before.obj_ids@.len(),
                goal == settled_banks(before@, frame_idx, *plan, memories@),
                memories@.len() == before.banks@.len(),
                plan.memory_scores@.len() == before.banks@.len(),
                *self == (Sam3VideoModel { banks: self.banks, ..before }),
                forall|k: int| 0 <= k < j ==> (#[trigger] self.banks@[k])@ == goal[k],
                forall|k: int|
                    j <= k < self.banks@.len() ==> (#[trigger] self.banks@[k])@ == before@.banks[k],
            decreases self.banks@.len() - j,
        {
            let score = plan.memory_scores[j];
            self.banks[j].store_memory(frame_idx, memories[j], score);
            if contains_id(&plan.reconditioned, self.obj_ids[j]) {
                self.banks[j].recondition(frame_idx);
            }
            j = j + 1;
        }
        proof {
            assert(bank_views(self.banks@) =~= goal);
            assert forall|j: int| 0 <= j < self@.banks.len() implies frames_valid(
                #[trigger] self@.banks[j],
            ) by {
                assert(self@.banks[j] == goal[j]);
                assert(frames_valid(before@.banks[j]));
            }
        }
    }

    /// Complete a frame with what the backend made of the plan: per existing object the encoded
    /// memory of its mask, per new object its first output.
    pub fn finish_frame(
        &mut self,
        frame_idx: i32,
        detections: &[Detection],
        plan: &FramePlan,
        memories: &[(u64, u64)],
        seeds: &[FrameMem],
    ) -> (out: VideoFrameOutput)
        requires
            old(self).wf(),
            0 <= frame_idx,
            plan_fits(old(self)@, detections@.len(), *plan),
            memories@.len() == old(self)@.obj_ids.len(),
            seeds@.len() == plan.new_obj_ids@.len(),
        ensures
            final(self).wf(),
            shown(*plan, detections@, out),
            final(self)@ == finished_session(
                old(self)@,
                frame_idx,
                *plan,
                detections@,
                memories@,
                seeds@,
            ),
    {
        let ghost before = self@;
        self.settle(frame_idx, plan, memories);
        let ghost settled = self@;
        let mut i: usize = 0;
        while i < plan.new_obj_ids.len()
            invariant
                i <= plan.new_obj_ids@.len() == seeds@.len(),
                0 <= frame_idx,
                self.wf(),
                plan_fits(before, detections@.len(), *plan),
                self@ == with_new_objects(
                    settled,
                    frame_idx,
                    *plan,
                    detections@,
                    seeds@,
                    i as nat,
                ),
                self.max_obj_id == before.max_obj_id + i,
            decreases plan.new_obj_ids@.len() - i,
        {
            let ghost prior = self@;
            let d: usize = plan.assoc.new_det_inds[i];
            let id: i32 = plan.new_obj_ids[i];
            let mut bank = ObjectBank::new();
            bank.cond.insert(frame_idx, seeds[i]);
            assert(bank@ == seeded_bank(frame_idx, seeds@[i as int]));
            self.add_object(id, detections[d].prompt_id, bank);
            proof {
                assert(id == before.max_obj_id + 1 + i);
                assert(self@ == prior.with_object(id, detections@[d as int].prompt_id, bank@));
                let ids = self@.obj_ids;
                assert forall|a: int, b: int| 0 <= a < b < ids.len() implies ids[a] < ids[b] by {
                    assert(prior.obj_ids[a] <= prior.max_obj_id);
                    if b < prior.obj_ids.len() {
                        assert(prior.obj_ids[a] < prior.obj_ids[b]);
                    }
                }
                assert forall|a: int| 0 <= a < ids.len() implies 0 <= #[trigger] ids[a]
                    <= self@.max_obj_id by {
                    if a < prior.obj_ids.len() {
                        assert(0 <= prior.obj_ids[a] <= prior.max_obj_id);
                    }
                }
                assert forall|j: int| 0 <= j < self@.banks.len() implies frames_valid(
                    #[trigger] self@.banks[j],
                ) by {
                    if j < prior.banks.len() {
                        assert(self@.banks[j] == prior.banks[j]);
                    }
                }
            }
            i = i + 1;
        }
        let ghost grown = self@;
        let mut k: usize = 0;
        assert(plan.removed_now@.take(0) =~= Seq::empty());
        while k < plan.removed_now.len()
            invariant
                k <= plan.removed_now@.len(),
                self.wf(),
                self@ == grown.without_objects(plan.removed_now@.take(k as int)),
            decreases plan.removed_now@.len() - k,
        {
            assert(plan.removed_now@.take(k + 1).drop_last() =~= plan.removed_now@.take(k as int));
            self.remove_object(plan.removed_now[k]);
            k = k + 1;
        }
        assert(plan.removed_now@.take(plan.removed_now@.len() as int) =~= plan.removed_now@);
        build_outputs(detections, plan)
    }
}

/// The pixels of a detection that prompt a new object: one where the logit reaches the threshold,
/// zero elsewhere.
pub fn mask_prompt(mask: &[Binary32]) -> (r: Vec<Binary32>)
    ensures
        r@ == Seq::new(
            mask@.len(),
            |p: int|
                if (Binary32 { bits: MASK_PROMPT_THRESH }).at_most(mask@[p]) {
                    Binary32 { bits: ONE }
                } else {
                    Binary32 { bits: 0 }
                },
        ),
        forall|p: int|
            0 <= p < mask@.len() ==> (#[trigger] r@[p]).bits == if (Binary32 {
                bits: 0x3f00_0000,
            }).at_most(mask@[p]) {
                0x3f80_0000u32
            } else {
                0u32
            },
{
    let threshold = Binary32 { bits: MASK_PROMPT_THRESH };
    let mut r: Vec<Binary32> = Vec::new();
    let mut p: usize = 0;
    while p < mask.len()
        invariant
            p <= mask@.len(),
            threshold == (Binary32 { bits: MASK_PROMPT_THRESH }),
            r@.len() == p,
            forall|q: int|
                0 <= q < p ==> #[trigger] r@[q] == if threshold.at_most(mask@[q]) {
                    Binary32 { bits: ONE }
                } else {
                    Binary32 { bits: 0 }
                },
        decreases mask@.len() - p,
    {
        if mask[p].ge(&threshold) {
            r.push(Binary32 { bits: ONE });
        } else {
            r.push(Binary32 { bits: 0 });
        }
        p = p + 1;
    }
    assert(r@ =~= Seq::new(
        mask@.len(),
        |p: int|
            if (Binary32 { bits: MASK_PROMPT_THRESH }).at_most(mask@[p]) {
                Binary32 { bits: ONE }
            } else {
                Binary32 { bits: 0 }
            },
    ));
    r
}

/// The query is kept as a detection.
pub open spec fn kept_query(scores: Seq<Binary32>) -> spec_fn(int) -> bool {
    |q: int| !scores[q].at_most(Binary32 { bits: SCORE_THRESH_DET })
}

/// The contents of a detection.
pub open spec fn detection_content(d: Detection) -> (Seq<Binary32>, Binary32, i32) {
    (d.mask@, d.score, d.prompt_id)
}

/// What the query becomes as a detection.
pub open spec fn query_content(scores: Seq<Binary32>, masks: Seq<Binary32>, pixels: int) -> spec_fn(
    int,
) -> (Seq<Binary32>, Binary32, i32) {
    |q: int| (masks.subrange(q * pixels, (q + 1) * pixels), scores[q], 0i32)
}

/// Keep the queries whose score exceeds the threshold; `masks` holds `pixels` logits per query.
pub fn select_detections(scores: &[Binary32], masks: &[Binary32], pixels: usize) -> (r: Vec<
    Detection,
>)
    requires
        scores@.len() * pixels == masks@.len(),
    ensures
        r@.map_values(|d: Detection| detection_content(d)) == picked(
            scores@.len(),
            kept_query(scores@),
            query_content(scores@, masks@, pixels as int),
        ),
{
    let threshold = Binary32 { bits: SCORE_THRESH_DET };
    let ghost p = kept_query(scores@);
    let ghost f = query_content(scores@, masks@, pixels as int);
    let total: usize = masks.len();
    let mut r: Vec<Detection> = Vec::new();
    let mut q: usize = 0;
    let mut start: usize = 0;
    while q < scores.len()
        invariant
            q <= scores@.len(),
            scores@.len() * pixels == masks@.len() == total,
            start == q * pixels,
            threshold == (Binary32 { bits: SCORE_THRESH_DET }),
            p == kept_query(scores@),
            f == query_content(scores@, masks@, pixels as int),
            r@.map_values(|d: Detection| detection_content(d)) == picked(q as nat, p, f),
        decreases scores@.len() - q,
    {
        proof {
            assert(start + pixels == (q + 1) * pixels) by (nonlinear_arith)
                requires
                    start == q * pixels,
            ;
            assert((q + 1) * pixels <= masks@.len()) by (nonlinear_arith)
                requires
                    q + 1 <= scores@.len(),
                    scores@.len() * pixels == masks@.len(),
            ;
        }
        let score = scores[q];
        if !score.le(&threshold) {
            let ghost before = r@;
            let mut mask: Vec<Binary32> = Vec::new();
            let mut i: usize = 0;
            while i < pixels
                invariant
                    i <= pixels,
                    start + pixels <= masks@.len() == total,
                    mask@ == masks@.subrange(start as int, start + i),
                decreases pixels - i,
            {
                mask.push(masks[start + i]);
                assert(masks@.subrange(start as int, start + i + 1) =~= masks@.subrange(
                    start as int,
                    start + i,
                ).push(masks@[start + i]));
                i = i + 1;
            }
            let d = Detection { mask, score, prompt_id: 0 };
            r.push(d);
            proof {
                assert(detection_content(d) == f(q as int));
                assert(r@.map_values(|d: Detection| detection_content(d)) =~= before.map_values(
                    |d: Detection| detection_content(d),
                ).push(detection_content(d)));
            }
        }
        start = start + pixels;
        q = q + 1;
    }
    r
}

proof fn removed_object_is_gone(s: Session, id: i32)
    requires
        s.valid(),
    ensures
        s.without_object(id).valid(),
        s.without_object(id).max_obj_id == s.max_obj_id,
        forall|x: i32|
            #[trigger] s.without_object(id).obj_ids.contains(x) <==> s.obj_ids.contains(x) && x
                != id,
{
    let t = s.without_object(id);
    if s.obj_ids.contains(id) {
        let k = s.obj_ids.index_of(id);
        assert(s.obj_ids[k] == id);
        let ids = t.obj_ids;
        assert forall|i: int, j: int| 0 <= i < j < ids.len() implies ids[i] < ids[j] by {
            let (a, b) = (
                if i < k {
                    i
                } else {
                    i + 1
                },
                if j < k {
                    j
                } else {
                    j + 1
                },
            );
            assert(s.obj_ids[a] < s.obj_ids[b]);
        }
        assert forall|i: int| 0 <= i < ids.len() implies 0 <= #[trigger] ids[i]
            <= t.max_obj_id by {
            assert(s.obj_ids[if i < k {
                i
            } else {
                i + 1
            }] <= s.max_obj_id);
        }
        assert forall|j: int| 0 <= j < t.banks.len() implies frames_valid(
            #[trigger] t.banks[j],
        ) by {
            assert(t.banks[j] == s.banks[if j < k {
                j
            } else {
                j + 1
            }]);
        }
        assert forall|x: i32| #[trigger] ids.contains(x) <==> s.obj_ids.contains(x) && x
            != id by {
            if ids.contains(x) {
                let i = choose|i: int| 0 <= i < ids.len() && ids[i] == x;
                let a = if i < k {
                    i
                } else {
                    i + 1
                };
                assert(s.obj_ids[a] == x);
                if a < k {
                    assert(s.obj_ids[a] < s.obj_ids[k]);
                } else {
                    assert(s.obj_ids[k] < s.obj_ids[a]);
                }
            }
            if s.obj_ids.contains(x) && x != id {
                let a = choose|a: int| 0 <= a < s.obj_ids.len() && s.obj_ids[a] == x;
                assert(ids[if a < k {
                    a
                } else {
                    a - 1
                }] == x);
            }
        }
    }
}

/// Removal takes out exactly the named objects, keeps the session valid, and never frees an id
/// for reuse.
pub proof fn removed_objects_are_gone(s: Session, ids: Seq<i32>)
    requires
        s.valid(),
    ensures
        s.without_objects(ids).valid(),
        s.without_objects(ids).max_obj_id == s.max_obj_id,
        forall|x: i32|
            #[trigger] s.without_objects(ids).obj_ids.contains(x) <==> s.obj_ids.contains(x)
                && !ids.contains(x),
    decreases ids.len(),
{
    if ids.len() > 0 {
        let rest = ids.drop_last();
        let t = s.without_objects(rest);
        removed_objects_are_gone(s, rest);
        removed_object_is_gone(t, ids.last());
        assert forall|x: i32| #[trigger] s.without_objects(ids).obj_ids.contains(
            x,
        ) <==> s.obj_ids.contains(x) && !ids.contains(x) by {
            assert(t.obj_ids.contains(x) <==> s.obj_ids.contains(x) && !rest.contains(x));
            if rest.contains(x) {
                let i = choose|i: int| 0 <= i < rest.len() && rest[i] == x;
                assert(ids[i] == x);
            }
            if ids.contains(x) {
                let i = choose|i: int| 0 <= i < ids.len() && ids[i] == x;
                if i < rest.len() {
                    assert(rest[i] == x);
                }
            }
            assert(ids[ids.len() - 1] == ids.last());
        }
    }
}

proof fn new_objects_join(
    s: Session,
    frame_idx: i32,
    plan: FramePlan,
    detections: Seq<Detection>,
    seeds: Seq<FrameMem>,
    n: nat,
)
    requires
        s.valid(),
        0 <= frame_idx,
        n <= plan.new_obj_ids@.len(),
        forall|i: int|
            0 <= i < plan.new_obj_ids@.len() ==> #[trigger] plan.new_obj_ids@[i] == s.max_obj_id
                + 1 + i,
    ensures
        ({
            let t = with_new_objects(s, frame_idx, plan, detections, seeds, n);
            &&& t.valid()
            &&& t.max_obj_id == s.max_obj_id + n
            &&& t.obj_ids == s.obj_ids + plan.new_obj_ids@.take(n as int)
        }),
    decreases n,
{
    let t = with_new_objects(s, frame_idx, plan, detections, seeds, n);
    if n == 0 {
        assert(t.obj_ids =~= s.obj_ids + plan.new_obj_ids@.take(0));
    } else {
        let prior = with_new_objects(s, frame_idx, plan, detections, seeds, (n - 1) as nat);
        new_objects_join(s, frame_idx, plan, detections, seeds, (n - 1) as nat);
        assert(plan.new_obj_ids@[n - 1] == s.max_obj_id + 1 + (n - 1));
        assert(t.obj_ids =~= s.obj_ids + plan.new_obj_ids@.take(n as int));
        let ids = t.obj_ids;
        assert forall|a: int, b: int| 0 <= a < b < ids.len() implies ids[a] < ids[b] by {
            assert(prior.obj_ids[a] <= prior.max_obj_id);
            if b < prior.obj_ids.len() {
                assert(prior.obj_ids[a] < prior.obj_ids[b]);
            }
        }
        assert forall|a: int| 0 <= a < ids.len() implies 0 <= #[trigger] ids[a]
            <= t.max_obj_id by {
            if a < prior.obj_ids.len() {
                assert(0 <= prior.obj_ids[a] <= prior.max_obj_id);
            }
        }
        assert forall|j: int| 0 <= j < t.banks.len() implies frames_valid(
            #[trigger] t.banks[j],
        ) by {
            if j < prior.banks.len() {
                assert(t.banks[j] == prior.banks[j]);
            }
        }
    }
}

/// After a frame the session holds the objects from before and the new ones, without those that
/// the frame removed. Every id that joins lies above every id given out before, so an id once
/// removed never comes back.
pub proof fn identities_are_never_reused(
    s: Session,
    frame_idx: i32,
    plan: FramePlan,
    detections: Seq<Detection>,
    memories: Seq<(u64, u64)>,
    seeds: Seq<FrameMem>,
)
    requires
        s.valid(),
        0 <= frame_idx,
        plan_fits(s, detections.len(), plan),
    ensures
        ({
            let t = finished_session(s, frame_idx, plan, detections, memories, seeds);
            &&& t.valid()
            &&& t.max_obj_id == s.max_obj_id + plan.new_obj_ids@.len()
            &&& forall|x: i32| #[trigger]
                t.obj_ids.contains(x) <==> (s.obj_ids.contains(x) || plan.new_obj_ids@.contains(x))
                    && !plan.removed_now@.contains(x)
            &&& forall|x: i32| #[trigger]
                t.obj_ids.contains(x) && !s.obj_ids.contains(x) ==> s.max_obj_id < x
        }),
{
    let settled = Session { banks: settled_banks(s, frame_idx, plan, memories), ..s };
    assert forall|j: int| 0 <= j < settled.banks.len() implies frames_valid(
        #[trigger] settled.banks[j],
    ) by {
        assert(frames_valid(s.banks[j]));
    }
    let n = plan.new_obj_ids@.len();
    let grown = with_new_objects(settled, frame_idx, plan, detections, seeds, n);
    new_objects_join(settled, frame_idx, plan, detections, seeds, n);
    assert(plan.new_obj_ids@.take(n as int) =~= plan.new_obj_ids@);
    removed_objects_are_gone(grown, plan.removed_now@);
    assert forall|x: i32| #[trigger] grown.obj_ids.contains(x) <==> s.obj_ids.contains(x)
        || plan.new_obj_ids@.contains(x) by {
        if grown.obj_ids.contains(x) {
            let i = choose|i: int| 0 <= i < grown.obj_ids.len() && grown.obj_ids[i] == x;
            if i < s.obj_ids.len() {
                assert(s.obj_ids[i] == x);
            } else {
                assert(plan.new_obj_ids@[i - s.obj_ids.len()] == x);
            }
        }
        if s.obj_ids.contains(x) {
            let i = choose|i: int| 0 <= i < s.obj_ids.len() && s.obj_ids[i] == x;
            assert(grown.obj_ids[i] == x);
        }
        if plan.new_obj_ids@.contains(x) {
            let i = choose|i: int| 0 <= i < n && plan.new_obj_ids@[i] == x;
            assert(grown.obj_ids[s.obj_ids.len() + i] == x);
        }
    }
    let t = grown.without_objects(plan.removed_now@);
    assert forall|x: i32| #[trigger] t.obj_ids.contains(x) && !s.obj_ids.contains(
        x,
    ) implies s.max_obj_id < x by {
        assert(grown.obj_ids.contains(x));
        let i = choose|i: int| 0 <= i < n && plan.new_obj_ids@[i] == x;
        assert(plan.new_obj_ids@[i] == s.max_obj_id + 1 + i);
    }
}

/// An object that is not removed keeps its memory and its prompt.
pub proof fn survivors_keep_their_memory(s: Session, ids: Seq<i32>, x: i32)
    requires
        s.valid(),
        s.obj_ids.contains(x),
        !ids.contains(x),
    ensures
        ({
            let t = s.without_objects(ids);
            &&& t.obj_ids.contains(x)
            &&& t.banks[t.obj_ids.index_of(x)] == s.banks[s.obj_ids.index_of(x)]
            &&& t.prompts[t.obj_ids.index_of(x)] == s.prompts[s.obj_ids.index_of(x)]
        }),
    decreases ids.len(),
{
    let t = s.without_objects(ids);
    removed_objects_are_gone(s, ids);
    if ids.len() > 0 {
        let rest = ids.drop_last();
        let u = s.without_objects(rest);
        assert(!rest.contains(x)) by {
            if rest.contains(x) {
                let i = choose|i: int| 0 <= i < rest.len() && rest[i] == x;
                assert(ids[i] == x);
            }
        }
        removed_objects_are_gone(s, rest);
        survivors_keep_their_memory(s, rest, x);
        let id = ids.last();
        assert(ids[ids.len() - 1] == id);
        if u.obj_ids.contains(id) {
            let k = u.obj_ids.index_of(id);
            let a = u.obj_ids.index_of(x);
            let b = if a < k {
                a
            } else {
                a - 1
            };
            assert(u.obj_ids[k] == id);
            assert(t.obj_ids[b] == x);
            position_is_unique(t.obj_ids, t.max_obj_id, b);
            assert(t.banks[b] == u.banks[a]);
            assert(t.prompts[b] == u.prompts[a]);
        }
    }
}

/// What a frame writes into the memory of an object, the next frame reads. An object that stays
/// reads the memory of its mask as a tracked one, one frame back, or as a conditioning one where
/// the frame reconditioned it, and its pointer with the same distance.
pub proof fn next_frame_reads_what_was_tracked(
    s: Session,
    frame_idx: i32,
    masks: Seq<Seq<Binary32>>,
    pointers: Seq<u64>,
    scores: Seq<Binary32>,
    plan: FramePlan,
    detections: Seq<Detection>,
    memories: Seq<(u64, u64)>,
    seeds: Seq<FrameMem>,
    j: int,
)
    requires
        s.valid(),
        0 <= frame_idx < s.num_frames,
        2 <= s.num_frames,
        plan_fits(s, detections.len(), plan),
        0 <= j < s.obj_ids.len(),
        !plan.removed_now@.contains(s.obj_ids[j]),
        s.banks[j].cond.dom().finite(),
        forall|t: i32| #[trigger] s.banks[j].cond.contains_key(t) ==> t < frame_idx,
    ensures
        ({
            let t = finished_session(
                tracked_session(s, frame_idx, masks, pointers, scores, plan),
                frame_idx,
                plan,
                detections,
                memories,
                seeds,
            );
            let bank = t.banks[t.obj_ids.index_of(s.obj_ids[j])];
            let next = (frame_idx + 1) as i32;
            let offset: i32 = if plan.reconditioned@.contains(s.obj_ids[j]) {
                0
            } else {
                1
            };
            &&& t.obj_ids.contains(s.obj_ids[j])
            &&& spatial_memory(bank, next).contains((offset, memories[j].0, memories[j].1))
            &&& object_pointers(bank, next, s.num_frames).contains((1i32, pointers[j]))
        }),
{
    let x = s.obj_ids[j];
    let mid = tracked_session(s, frame_idx, masks, pointers, scores, plan);
    let settled = Session { banks: settled_banks(mid, frame_idx, plan, memories), ..mid };
    assert forall|i: int| 0 <= i < settled.banks.len() implies frames_valid(
        #[trigger] settled.banks[i],
    ) by {
        assert(frames_valid(s.banks[i]));
        assert(frames_valid(mid.banks[i]));
    }
    let n = plan.new_obj_ids@.len();
    let grown = with_new_objects(settled, frame_idx, plan, detections, seeds, n);
    new_objects_join(settled, frame_idx, plan, detections, seeds, n);
    new_objects_leave_memories(settled, frame_idx, plan, detections, seeds, n, j);
    assert(grown.obj_ids[j] == x);
    position_is_unique(grown.obj_ids, grown.max_obj_id, j);
    survivors_keep_their_memory(grown, plan.removed_now@, x);
    let bank = settled.banks[j];
    let next = (frame_idx + 1) as i32;
    assert(mid.banks[j] == tracked_bank(s.banks[j], frame_idx, pointers[j], scores[j]));
    assert(mid.banks[j].non_cond.contains_key(frame_idx));
    assert(!s.banks[j].cond.contains_key(frame_idx));
    if plan.reconditioned@.contains(x) {
        assert(bank.cond.contains_key(frame_idx));
        assert(bank.cond.dom() =~= s.banks[j].cond.dom().insert(frame_idx));
        assert forall|t: i32| #[trigger] bank.cond.contains_key(t) && t < next implies t
            <= frame_idx by {}
        latest_conditioning_is_read(bank, frame_idx, next);
        conditioning_pointers_are_read(bank, frame_idx, next, s.num_frames);
    } else {
        recent_memory_is_read(bank, frame_idx, next);
        recent_pointers_are_read(bank, frame_idx, next, s.num_frames);
    }
}

proof fn new_objects_leave_memories(
    s: Session,
    frame_idx: i32,
    plan: FramePlan,
    detections: Seq<Detection>,
    seeds: Seq<FrameMem>,
    n: nat,
    j: int,
)
    requires
        0 <= j < s.banks.len(),
    ensures
        ({
            let t = with_new_objects(s, frame_idx, plan, detections, seeds, n);
            t.banks.len() == s.banks.len() + n && t.banks[j] == s.banks[j]
        }),
    decreases n,
{
    if n > 0 {
        new_objects_leave_memories(s, frame_idx, plan, detections, seeds, (n - 1) as nat, j);
    }
}

proof fn new_object_has_its_seed(
    s: Session,
    frame_idx: i32,
    plan: FramePlan,
    detections: Seq<Detection>,
    seeds: Seq<FrameMem>,
    n: nat,
    i: int,
)
    requires
        0 <= i < n,
    ensures
        ({
            let t = with_new_objects(s, frame_idx, plan, detections, seeds, n);
            &&& t.banks.len() == s.banks.len() + n
            &&& t.banks[s.banks.len() + i] == seeded_bank(frame_idx, seeds[i])
        }),
    decreases n,
{
    if i < n - 1 {
        new_object_has_its_seed(s, frame_idx, plan, detections, seeds, (n - 1) as nat, i);
    } else {
        let rest = with_new_objects(s, frame_idx, plan, detections, seeds, (n - 1) as nat);
        if n > 1 {
            new_object_has_its_seed(s, frame_idx, plan, detections, seeds, (n - 1) as nat, 0);
        }
        assert(rest.banks.len() == s.banks.len() + n - 1);
    }
}

/// What seeds a new object, the next frame reads: its memory as a conditioning one, and its
/// pointer one frame back.
pub proof fn next_frame_reads_what_was_seeded(
    s: Session,
    frame_idx: i32,
    plan: FramePlan,
    detections: Seq<Detection>,
    memories: Seq<(u64, u64)>,
    seeds: Seq<FrameMem>,
    i: int,
)
    requires
        s.valid(),
        0 <= frame_idx < i32::MAX,
        plan_fits(s, detections.len(), plan),
        0 <= i < plan.new_obj_ids@.len(),
        !plan.removed_now@.contains(plan.new_obj_ids@[i]),
        encoded(seeds[i]),
    ensures
        ({
            let t = finished_session(s, frame_idx, plan, detections, memories, seeds);
            let bank = t.banks[t.obj_ids.index_of(plan.new_obj_ids@[i])];
            let next = (frame_idx + 1) as i32;
            &&& t.obj_ids.contains(plan.new_obj_ids@[i])
            &&& spatial_memory(bank, next).contains(memory_at(seeds[i], 0))
            &&& object_pointers(bank, next, s.num_frames).contains((1i32, seeds[i].object_pointer))
        }),
{
    let x = plan.new_obj_ids@[i];
    let settled = Session { banks: settled_banks(s, frame_idx, plan, memories), ..s };
    assert forall|j: int| 0 <= j < settled.banks.len() implies frames_valid(
        #[trigger] settled.banks[j],
    ) by {
        assert(frames_valid(s.banks[j]));
    }
    let n = plan.new_obj_ids@.len();
    let grown = with_new_objects(settled, frame_idx, plan, detections, seeds, n);
    new_objects_join(settled, frame_idx, plan, detections, seeds, n);
    new_object_has_its_seed(settled, frame_idx, plan, detections, seeds, n, i);
    let at = s.obj_ids.len() + i;
    assert(grown.obj_ids[at] == x);
    position_is_unique(grown.obj_ids, grown.max_obj_id, at);
    survivors_keep_their_memory(grown, plan.removed_now@, x);
    let bank = seeded_bank(frame_idx, seeds[i]);
    assert(bank.cond.dom() =~= Set::empty().insert(frame_idx));
    let next = (frame_idx + 1) as i32;
    latest_conditioning_is_read(bank, frame_idx, next);
    conditioning_pointers_are_read(bank, frame_idx, next, s.num_frames);
}

/// A frame shows its objects in id order, and every new object has an id that no object of the
/// session had before.
pub proof fn shown_objects_are_in_id_order(
    s: Session,
    detections: Seq<Detection>,
    plan: FramePlan,
    out: VideoFrameOutput,
)
    requires
        s.valid(),
        plan_fits(s, detections.len(), plan),
        shown(plan, detections, out),
    ensures
        out.masks@.len() == out.obj_ids@.len(),
        forall|i: int, j: int|
            0 <= i < j < out.obj_ids@.len() ==> out.obj_ids@[i] < out.obj_ids@[j],
        forall|k: int| 0 <= k < plan.new_obj_ids@.len() ==> plan.new_obj_ids@[k] > s.max_obj_id,
{
    let n = s.obj_ids.len();
    assert(rows(out.masks@).len() == out.masks@.len());
    assert forall|i: int, j: int| 0 <= i < j < out.obj_ids@.len() implies out.obj_ids@[i]
        < out.obj_ids@[j] by {
        if i < n {
            assert(s.obj_ids[i] <= s.max_obj_id);
        }
        if j >= n {
            assert(plan.new_obj_ids@[j - n] == s.max_obj_id + 1 + (j - n));
        }
        if i >= n {
            assert(plan.new_obj_ids@[i - n] == s.max_obj_id + 1 + (i - n));
        }
    }
}

/// Objects are renewed on every sixteenth frame only: those that a sure detection confirms and whose
/// own score is above eight tenths.
pub proof fn renewal_comes_every_sixteenth_frame(
    frame_idx: i32,
    ids: Seq<i32>,
    scores: Seq<Binary32>,
    confirmed: Set<i32>,
    j: int,
)
    requires
        0 <= frame_idx,
        confirmed.finite(),
        0 <= j < ids.len(),
        ids.no_duplicates(),
    ensures
        reconditioned_ids(frame_idx, ids, scores, confirmed).contains(ids[j]) <==> frame_idx % 16
            == 0 && confirmed.contains(ids[j]) && (Binary32 { bits: 0x3f4c_cccd }).less(scores[j]),
        forall|id: i32|
            #[trigger] reconditioned_ids(frame_idx, ids, scores, confirmed).contains(id)
                ==> ids.contains(id) && confirmed.contains(id),
{
    let keys = in_order(confirmed);
    in_order_of_finite(confirmed);
    let (p, f) = (confident(ids, keys, scores), key_of(keys));
    let r = reconditioned_ids(frame_idx, ids, scores, confirmed);
    assert(ids.index_of(ids[j]) == j);
    if frame_idx % 16 == 0 && confirmed.contains(ids[j]) && (Binary32 { bits: 0x3f4c_cccd }).less(
        scores[j],
    ) {
        assert(keys.to_set().contains(ids[j]));
        picked_complete(keys.len(), p, f, keys.index_of(ids[j]));
    }
    assert forall|id: i32| #[trigger] r.contains(id) implies ids.contains(id) && confirmed.contains(
        id,
    ) && (Binary32 { bits: 0x3f4c_cccd }).less(scores[ids.index_of(id)]) by {
        let k = choose|k: int| 0 <= k < r.len() && r[k] == id;
        let i = picked_sound(keys.len(), p, f, k);
        assert(keys.to_set().contains(keys[i]));
    }
}

/// An object is remembered as present, with the score ten, exactly where its mask has foreground,
/// and as absent, with minus ten, where it has none.
pub proof fn presence_follows_the_mask(mask: Seq<Binary32>)
    ensures
        (exists|p: int| 0 <= p < mask.len() && 0 < (#[trigger] mask[p]).bits <= 0x7f80_0000)
            ==> presence(mask).bits == 0x4120_0000,
        (forall|p: int| 0 <= p < mask.len() ==> !(0 < (#[trigger] mask[p]).bits <= 0x7f80_0000))
            ==> presence(mask).bits == 0xc120_0000,
{
    let f = super::masks::foreground(mask);
    tally_bounds(f);
    if exists|p: int| 0 <= p < mask.len() && 0 < (#[trigger] mask[p]).bits <= 0x7f80_0000 {
        let p = choose|p: int| 0 <= p < mask.len() && 0 < (#[trigger] mask[p]).bits <= 0x7f80_0000;
        assert(f[p]);
    } else if area(mask) > 0 {
        let p = choose|p: int| 0 <= p < f.len() && f[p];
        assert(0 < mask[p].bits <= 0x7f80_0000);
    }
}

/// What is tracked on a frame goes under that frame, without a memory yet; its memory is added to it
/// and leaves its pointer; a renewed object has the frame among its prompted ones. Other frames are
/// left alone.
pub proof fn banks_record_their_frame(
    bank: Bank,
    frame_idx: i32,
    pointer: u64,
    score: Binary32,
    memory: (u64, u64),
    presence: Binary32,
    other: i32,
)
    requires
        !bank.cond.contains_key(frame_idx),
    ensures
        ({
            let a = tracked_bank(bank, frame_idx, pointer, score);
            let b = encoded_bank(a, frame_idx, memory, presence);
            let c = reconditioned_bank(b, frame_idx);
            let m = FrameMem {
                maskmem_features: Some(memory.0),
                maskmem_pos_enc: Some(memory.1),
                object_pointer: pointer,
                object_score: presence,
            };
            &&& a.non_cond.contains_key(frame_idx)
            &&& a.non_cond[frame_idx].object_pointer == pointer
            &&& a.non_cond[frame_idx].object_score == score
            &&& a.non_cond[frame_idx].maskmem_features is None
            &&& a.cond == bank.cond
            &&& b.non_cond[frame_idx] == m
            &&& b.cond == bank.cond
            &&& c.cond.contains_key(frame_idx)
            &&& c.cond[frame_idx] == m
            &&& !c.non_cond.contains_key(frame_idx)
            &&& other != frame_idx ==> {
                &&& b.non_cond.contains_key(other) == bank.non_cond.contains_key(other)
                &&& c.non_cond.contains_key(other) == bank.non_cond.contains_key(other)
                &&& c.cond.contains_key(other) == bank.cond.contains_key(other)
                &&& bank.non_cond.contains_key(other) ==> b.non_cond[other] == bank.non_cond[other]
                    && c.non_cond[other] == bank.non_cond[other]
                &&& bank.cond.contains_key(other) ==> c.cond[other] == bank.cond[other]
            }
        }),
{
}

/// A new object starts with its first frame prompted and nothing else.
pub proof fn new_banks_hold_their_seed(frame_idx: i32, seed: FrameMem, f: i32)
    ensures
        seeded_bank(frame_idx, seed).cond.contains_key(f) <==> f == frame_idx,
        seeded_bank(frame_idx, seed).cond[frame_idx] == seed,
        !seeded_bank(frame_idx, seed).non_cond.contains_key(f),
{
}

/// What is shown of a frame: every object there was, and every new one. A new object shows the mask
/// of its detection, a renewed object that of the detection that renews it, and any other its own.
pub proof fn objects_are_shown(
    detections: Seq<Detection>,
    plan: FramePlan,
    out: VideoFrameOutput,
    j: int,
    k: int,
)
    requires
        shown(plan, detections, out),
        0 <= j < plan.existing@.len(),
        0 <= k < plan.new_obj_ids@.len(),
    ensures
        out.obj_ids@.len() == plan.existing@.len() + plan.new_obj_ids@.len(),
        out.masks@.len() == out.obj_ids@.len(),
        out.obj_ids@[j] == plan.existing@[j],
        out.obj_ids@[plan.existing@.len() + k] == plan.new_obj_ids@[k],
        out.masks@[plan.existing@.len() + k]@
            == detections[plan.assoc.new_det_inds@[k] as int].mask@,
        !plan.reconditioned@.contains(plan.existing@[j]) ==> out.masks@[j]@ == plan.trk_masks@[j]@,
        plan.reconditioned@.contains(plan.existing@[j])
            && plan.assoc.trk_id_to_max_iou_high_conf_det@.contains_key(plan.existing@[j])
            ==> out.masks@[j]@
            == detections[plan.assoc.trk_id_to_max_iou_high_conf_det@[plan.existing@[j]] as int].mask@,
{
    let n = plan.existing@.len();
    assert(rows(out.masks@).len() == out.masks@.len());
    assert(rows(out.masks@)[j] == out.masks@[j]@);
    assert(rows(out.masks@)[n + k] == out.masks@[n + k]@);
}

proof fn joined_objects_keep_their_places(
    s: Session,
    frame_idx: i32,
    plan: FramePlan,
    detections: Seq<Detection>,
    seeds: Seq<FrameMem>,
    n: nat,
)
    requires
        s.banks.len() == s.obj_ids.len(),
        s.prompts.len() == s.obj_ids.len(),
    ensures
        ({
            let t = with_new_objects(s, frame_idx, plan, detections, seeds, n);
            &&& t.obj_ids.len() == s.obj_ids.len() + n
            &&& t.prompts.len() == s.obj_ids.len() + n
            &&& t.banks.len() == s.obj_ids.len() + n
            &&& forall|j: int|
                0 <= j < s.obj_ids.len() ==> #[trigger] t.obj_ids[j] == s.obj_ids[j] && t.prompts[j]
                    == s.prompts[j] && t.banks[j] == s.banks[j]
            &&& forall|i: int|
                #![trigger plan.new_obj_ids@[i]]
                0 <= i < n ==> t.obj_ids[s.obj_ids.len() + i] == plan.new_obj_ids@[i]
                    && t.prompts[s.obj_ids.len() + i]
                    == detections[plan.assoc.new_det_inds@[i] as int].prompt_id
        }),
    decreases n,
{
    if n > 0 {
        joined_objects_keep_their_places(s, frame_idx, plan, detections, seeds, (n - 1) as nat);
    }
}

/// Where no object is removed, a finished frame leaves every object with its number and prompt, and
/// each new one with the prompt of its detection.
pub proof fn objects_answer_the_prompt_of_their_detection(
    s: Session,
    frame_idx: i32,
    plan: FramePlan,
    detections: Seq<Detection>,
    memories: Seq<(u64, u64)>,
    seeds: Seq<FrameMem>,
)
    requires
        s.valid(),
        plan.removed_now@.len() == 0,
    ensures
        ({
            let t = finished_session(s, frame_idx, plan, detections, memories, seeds);
            let n = s.obj_ids.len();
            &&& t.obj_ids.len() == n + plan.new_obj_ids@.len()
            &&& forall|j: int|
                0 <= j < n ==> #[trigger] t.obj_ids[j] == s.obj_ids[j] && t.prompts[j]
                    == s.prompts[j]
            &&& forall|i: int|
                #![trigger plan.new_obj_ids@[i]]
                0 <= i < plan.new_obj_ids@.len() ==> t.obj_ids[n + i] == plan.new_obj_ids@[i]
                    && t.prompts[n + i]
                    == detections[plan.assoc.new_det_inds@[i] as int].prompt_id
        }),
{
    let a = Session { banks: settled_banks(s, frame_idx, plan, memories), ..s };
    joined_objects_keep_their_places(
        a,
        frame_idx,
        plan,
        detections,
        seeds,
        plan.new_obj_ids@.len(),
    );
}

/// A query becomes a detection exactly where its score is above a half, with its own mask and score.
pub proof fn queries_above_a_half_are_kept(
    scores: Seq<Binary32>,
    masks: Seq<Binary32>,
    pixels: int,
    q: int,
)
    requires
        0 <= q < scores.len(),
        0 <= pixels,
        masks.len() == scores.len() * pixels,
    ensures
        (Binary32 { bits: 0x3f00_0000 }).less(scores[q]) ==> picked(
            scores.len(),
            kept_query(scores),
            query_content(scores, masks, pixels),
        ).contains((masks.subrange(q * pixels, q * pixels + pixels), scores[q], 0i32)),
        forall|k: int|
            #![trigger picked(scores.len(), kept_query(scores), query_content(scores, masks, pixels))[k]]
            0 <= k < picked(
                scores.len(),
                kept_query(scores),
                query_content(scores, masks, pixels),
            ).len() ==> !picked(
                scores.len(),
                kept_query(scores),
                query_content(scores, masks, pixels),
            )[k].1.at_most(Binary32 { bits: 0x3f00_0000 }),
{
    let (p, f) = (kept_query(scores), query_content(scores, masks, pixels));
    assert((q + 1) * pixels == q * pixels + pixels) by (nonlinear_arith);
    if (Binary32 { bits: 0x3f00_0000 }).less(scores[q]) {
        picked_complete(scores.len(), p, f, q);
    }
    assert forall|k: int|
        #![trigger picked(scores.len(), p, f)[k]]
        0 <= k < picked(scores.len(), p, f).len() implies !picked(scores.len(), p, f)[k].1.at_most(
        Binary32 { bits: 0x3f00_0000 },
    ) by {
        let i = picked_sound(scores.len(), p, f, k);
    }
}

/// The masks that are remembered never overlap within a prompt, and where they have foreground they
/// are the masks as they were tracked.
pub proof fn remembered_masks_do_not_overlap(
    s: Session,
    frame_idx: i32,
    detections: Seq<Detection>,
    masks: Seq<Seq<Binary32>>,
    scores: Seq<Binary32>,
    plan: FramePlan,
    i: int,
    j: int,
    p: int,
)
    requires
        s.valid(),
        decided(s, frame_idx, detections, masks, scores, plan),
        masks.len() == s.obj_ids.len(),
        uniform(masks),
        0 <= i < s.obj_ids.len(),
        0 <= j < s.obj_ids.len(),
        i != j,
        s.prompts[i] == s.prompts[j],
        0 <= p < masks[i].len(),
    ensures
        plan.memory_masks@.len() == s.obj_ids.len(),
        plan.memory_masks@[i]@.len() == masks[i].len(),
        !(positive(plan.memory_masks@[i]@[p]) && positive(plan.memory_masks@[j]@[p])),
        positive(plan.memory_masks@[i]@[p]) ==> plan.memory_masks@[i]@[p] == masks[i][p],
        plan.memory_scores@[i].bits == if area(plan.memory_masks@[i]@) > 0 {
            0x4120_0000u32
        } else {
            0xc120_0000u32
        },
{
    let r = rivals(s.last_occluded, s.obj_ids, s.prompts, masks, plan.removed_now@);
    let shown = rows(plan.trk_masks@);
    let kept = rows(plan.memory_masks@);
    assert(kept.len() == plan.memory_masks@.len());
    assert(kept[i] == plan.memory_masks@[i]@ && kept[j] == plan.memory_masks@[j]@);
    assert forall|k: int| 0 <= k < shown.len() implies (#[trigger] shown[k]).len()
        == masks[k].len() by {
        assert(shown[k] == r.cleared(k));
    }
    assert(uniform(shown)) by {
        assert forall|k: int, l: int|
            #![trigger shown[k], shown[l]]
            0 <= k < shown.len() && 0 <= l < shown.len() implies shown[k].len()
            == shown[l].len() by {
            assert(masks[k].len() == masks[l].len());
        }
    }
    assert(shown[i] == r.cleared(i));
    super::masks::constrained_masks_are_disjoint(shown, s.prompts, i, j, p);
    super::masks::constrained_masks_shrink(shown, s.prompts, i, p);
    assert(constrained(shown, s.prompts, i).len() == masks[i].len());
    assert(plan.memory_scores@[i] == presence(kept[i]));
}

/// An object with foreground that no detection of its prompt overlaps by a half or more gets this
/// frame logged against it and loses one of the frames it may go on; any other object's log stays.
pub proof fn lost_objects_are_logged(
    s: Session,
    frame_idx: i32,
    detections: Seq<Detection>,
    masks: Seq<Seq<Binary32>>,
    pointers: Seq<u64>,
    scores: Seq<Binary32>,
    plan: FramePlan,
    j: int,
)
    requires
        s.valid(),
        decided(s, frame_idx, detections, masks, scores, plan),
        masks.len() == s.obj_ids.len(),
        0 <= j < s.obj_ids.len(),
    ensures
        ({
            let before = s.watch.unmatched_frames;
            let after = tracked_session(s, frame_idx, masks, pointers, scores, plan)
                .watch.unmatched_frames;
            let id = s.obj_ids[j];
            let lost = area(masks[j]) > 0 && forall|i: int|
                0 <= i < detections.len() && (#[trigger] detections[i]).prompt_id == s.prompts[j]
                    ==> !(Binary32 { bits: 0x3f00_0000 }).at_most(
                    super::masks::iou(
                        super::masks::foreground(detections[i].mask@),
                        super::masks::foreground(masks[j]),
                    ),
                );
            &&& lost ==> after.contains_key(id) && after[id].last() == frame_idx
            &&& lost && before.contains_key(id) ==> after[id] == before[id].push(frame_idx)
            &&& lost && !before.contains_key(id) ==> after[id] == seq![frame_idx]
            &&& !lost ==> after.contains_key(id) == before.contains_key(id)
            &&& !lost && before.contains_key(id) ==> after[id] == before[id]
        }),
{
    let scene = Scene { detections, obj_ids: s.obj_ids, prompts: s.prompts, masks };
    super::association::tracks_without_detection_are_unmatched(scene, plan.assoc, j);
    super::association::unmatched_tracks_are_listed_once(scene, plan.assoc);
    super::hotstart::unmatched_frames_are_logged(
        s.watch,
        frame_idx,
        rows(plan.assoc.det_to_matched_trk@),
        plan.assoc.unmatched_trk@,
        plan.new_obj_ids@,
        s.obj_ids[j],
    );
}

/// A new object is first seen on this frame, unless its number was seen before, and may go on
/// thirty frames unseen.
pub proof fn new_objects_are_watched(
    s: Session,
    frame_idx: i32,
    detections: Seq<Detection>,
    masks: Seq<Seq<Binary32>>,
    pointers: Seq<u64>,
    scores: Seq<Binary32>,
    plan: FramePlan,
    id: i32,
)
    requires
        s.valid(),
        decided(s, frame_idx, detections, masks, scores, plan),
        masks.len() == s.obj_ids.len(),
        super::hotstart::budgets_bounded(s.watch.keep_alive),
        plan.new_obj_ids@.contains(id),
        !s.obj_ids.contains(id),
        !s.watch.first_frame.contains_key(id),
    ensures
        ({
            let w = tracked_session(s, frame_idx, masks, pointers, scores, plan).watch;
            &&& w.first_frame.contains_key(id)
            &&& w.first_frame[id] == frame_idx
            &&& w.keep_alive.contains_key(id)
            &&& w.keep_alive[id] == 30
        }),
{
    let scene = Scene { detections, obj_ids: s.obj_ids, prompts: s.prompts, masks };
    let touched = rows(plan.assoc.det_to_matched_trk@);
    super::association::unmatched_tracks_are_listed_once(scene, plan.assoc);
    super::hotstart::new_objects_are_noted(
        s.watch.first_frame,
        plan.new_obj_ids@,
        frame_idx,
        id,
    );
    super::hotstart::budgets_follow_the_frame(
        s.watch,
        frame_idx,
        touched,
        plan.assoc.unmatched_trk@,
        plan.new_obj_ids@,
        id,
    );
    if plan.assoc.unmatched_trk@.contains(id) {
        assert(s.obj_ids.contains(id));
    }
}

/// Whoever is removed on a frame had been seen for less than fifteen frames and was not removed
/// before.
pub proof fn removals_of_a_frame(
    s: Session,
    frame_idx: i32,
    detections: Seq<Detection>,
    masks: Seq<Seq<Binary32>>,
    pointers: Seq<u64>,
    scores: Seq<Binary32>,
    plan: FramePlan,
    id: i32,
)
    requires
        decided(s, frame_idx, detections, masks, scores, plan),
        ({
            let w = tracked_session(s, frame_idx, masks, pointers, scores, plan).watch;
            w.unmatched_frames.dom().finite() && w.overlap_pairs.dom().finite()
        }),
    ensures
        ({
            let w = tracked_session(s, frame_idx, masks, pointers, scores, plan).watch;
            &&& plan.removed_now@.contains(id) ==> w.removed.contains(id)
                && !s.watch.removed.contains(id)
            &&& w.removed.contains(id) <==> s.watch.removed.contains(id)
                || plan.removed_now@.contains(id)
            &&& plan.removed_now@.contains(id) <==> {
                &&& !s.watch.removed.contains(id)
                &&& (if w.first_frame.contains_key(id) {
                    frame_idx - w.first_frame[id] < 15
                } else {
                    frame_idx < 15
                })
                &&& (w.unmatched_frames.contains_key(id) && w.unmatched_frames[id].len() >= 8) || (
                exists|elder: i32| #[trigger]
                    w.overlap_pairs.contains_key((elder, id)) && w.overlap_pairs[(elder, id)].len()
                        >= 8)
            }
        }),
{
    let seen = observed(
        s.watch,
        frame_idx,
        rows(plan.assoc.det_to_matched_trk@),
        plan.assoc.unmatched_trk@,
        plan.new_obj_ids@,
    );
    super::hotstart::removals_need_eight_frames(seen, frame_idx, id);
    if plan.removed_now@.contains(id) {
        assert(plan.removed_now@.to_set().contains(id));
    }
    if plan.removed_now@.to_set().contains(id) {
        assert(plan.removed_now@.contains(id));
    }
}

/// On a frame an object that overlaps every other object of its prompt by less than seven tenths
/// keeps its mask; where it has foreground its last occlusion stays as known, and where it has none
/// it is this frame.
pub proof fn occlusions_of_a_frame(
    s: Session,
    frame_idx: i32,
    detections: Seq<Detection>,
    masks: Seq<Seq<Binary32>>,
    pointers: Seq<u64>,
    scores: Seq<Binary32>,
    plan: FramePlan,
    j: int,
)
    requires
        s.valid(),
        decided(s, frame_idx, detections, masks, scores, plan),
        masks.len() == s.obj_ids.len(),
        0 <= j < s.obj_ids.len(),
        forall|i: int|
            0 <= i < masks.len() && i != j && #[trigger] s.prompts[i] == s.prompts[j]
                ==> super::masks::iou(
                super::masks::foreground(masks[i]),
                super::masks::foreground(masks[j]),
            ).less(Binary32 { bits: 0x3f33_3333 }),
    ensures
        ({
            let before = s.last_occluded;
            let after = tracked_session(s, frame_idx, masks, pointers, scores, plan).last_occluded;
            let id = s.obj_ids[j];
            &&& plan.trk_masks@[j]@ == masks[j]
            &&& after.contains_key(id)
            &&& area(masks[j]) == 0 ==> after[id] == frame_idx
            &&& area(masks[j]) > 0 && before.contains_key(id) ==> after[id] == before[id]
            &&& area(masks[j]) > 0 && !before.contains_key(id) ==> after[id]
                == if plan.removed_now@.contains(id) {
                100_000i32
            } else {
                -1i32
            }
        }),
{
    let ids = s.obj_ids;
    assert forall|i: int| 0 <= i < masks.len() && i != j implies #[trigger] ids[i] != ids[j] by {
        if i < j {
            assert(ids[i] < ids[j]);
        } else {
            assert(ids[j] < ids[i]);
        }
    }
    super::occlusion::objects_apart_keep_their_masks(
        s.last_occluded,
        ids,
        s.prompts,
        masks,
        plan.removed_now@,
        frame_idx,
        j,
    );
    super::occlusion::occlusion_needs_a_record(
        s.last_occluded,
        ids,
        s.prompts,
        masks,
        plan.removed_now@,
        frame_idx,
        j,
    );
    super::occlusion::objects_are_recorded(
        rivals(s.last_occluded, ids, s.prompts, masks, plan.removed_now@),
        s.last_occluded,
        ids,
        frame_idx,
        masks.len(),
        j,
    );
    assert(rows(plan.trk_masks@).len() == plan.trk_masks@.len());
    assert(rows(plan.trk_masks@)[j] == plan.trk_masks@[j]@);
}

} // verus!
