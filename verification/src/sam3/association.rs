//! Association of the detections on a frame with the objects that are being tracked.
//!
//! Detections and tracks are compared by mask overlap within one prompt. No assignment problem
//! is solved: a detection may touch several tracks, and the thresholds alone decide.
use super::masks::{
    any_covered, binarize, foreground, iou, mask_iou, rows, running_best, running_best_dominates,
    ZERO,
};
use crate::binary32::Binary32;
use crate::collect::{picked, picked_complete, picked_sound, tally};
use std::collections::BTreeMap;
use vstd::prelude::*;

verus! {

broadcast use vstd::laws_cmp::group_laws_cmp;

/// The score from which an unmatched detection starts a new object: seven tenths.
pub const NEW_DET_THRESH: u32 = 0x3f33_3333;

/// The overlap from which a detection touches a track: one tenth.
pub const ASSOC_IOU_THRESH: u32 = 0x3dcc_cccd;

/// The overlap from which a track counts as re-detected: one half.
pub const TRK_ASSOC_IOU_THRESH: u32 = 0x3f00_0000;

/// The score of a detection that may recondition a track: eight tenths.
pub const HIGH_CONF_THRESH: u32 = 0x3f4c_cccd;

/// The overlap of a detection that may recondition a track: eight tenths.
pub const HIGH_IOU_THRESH: u32 = 0x3f4c_cccd;

/// Minus one, below every overlap.
pub const MINUS_ONE: u32 = 0xbf80_0000;

/// A detection on a frame: mask logits, score, and the prompt that it answers.
pub struct Detection {
    pub mask: Vec<Binary32>,
    pub score: Binary32,
    pub prompt_id: i32,
}

/// What the comparison of detections with tracks decided.
pub struct Assoc {
    /// Detections that start new objects.
    pub new_det_inds: Vec<usize>,
    /// Tracks with a mask that no detection confirms.
    pub unmatched_trk: Vec<i32>,
    /// Tracks without a mask on this frame.
    pub empty_trk: Vec<i32>,
    /// Per detection, the tracks that it touches.
    pub det_to_matched_trk: Vec<Vec<i32>>,
    /// Per confidently re-detected track, the detection that confirms it.
    pub trk_id_to_max_iou_high_conf_det: BTreeMap<i32, usize>,
}

/// What is compared on a frame.
#[verifier::ext_equal]
pub struct Scene {
    pub detections: Seq<Detection>,
    pub obj_ids: Seq<i32>,
    pub prompts: Seq<i32>,
    pub masks: Seq<Seq<Binary32>>,
}

impl Scene {
    /// Overlap of a detection with a track; zero across prompts.
    pub open spec fn overlap(self, i: int, j: int) -> Binary32 {
        if self.detections[i].prompt_id == self.prompts[j] {
            iou(foreground(self.detections[i].mask@), foreground(self.masks[j]))
        } else {
            Binary32 { bits: ZERO }
        }
    }

    /// The track has no foreground.
    pub open spec fn empty(self, j: int) -> bool {
        tally(foreground(self.masks[j])) == 0
    }

    /// Some detection confirms the track.
    pub open spec fn confirmed(self, j: int) -> bool {
        exists|i: int|
            0 <= i < self.detections.len() && (Binary32 { bits: TRK_ASSOC_IOU_THRESH }).at_most(
                #[trigger] self.overlap(i, j),
            )
    }

    /// The detection touches the track.
    pub open spec fn touches(self, i: int, j: int) -> bool {
        (Binary32 { bits: ASSOC_IOU_THRESH }).at_most(self.overlap(i, j))
    }

    /// The detection starts a new object.
    pub open spec fn starts_object(self, i: int) -> bool {
        &&& (Binary32 { bits: NEW_DET_THRESH }).at_most(self.detections[i].score)
        &&& forall|j: int| 0 <= j < self.masks.len() ==> !#[trigger] self.touches(i, j)
    }

    /// The track that the detection overlaps most, the earliest of equals, and that overlap.
    pub open spec fn best_track(self, i: int) -> (int, Binary32) {
        running_best(self.overlaps_of(i), Binary32 { bits: MINUS_ONE }, self.masks.len())
    }

    /// The overlaps of one detection.
    pub open spec fn overlaps_of(self, i: int) -> spec_fn(int) -> Binary32 {
        |j: int| self.overlap(i, j)
    }

    /// The detection is confident enough, and close enough to a track, to recondition it.
    pub open spec fn reconditions(self, i: int) -> bool {
        &&& (Binary32 { bits: HIGH_CONF_THRESH }).at_most(self.detections[i].score)
        &&& !self.starts_object(i)
        &&& (Binary32 { bits: HIGH_IOU_THRESH }).at_most(self.best_track(i).1)
    }

    /// The confirmations that the first `n` detections give; a later detection replaces an
    /// earlier one.
    pub open spec fn confirmations(self, n: nat) -> Map<i32, usize>
        decreases n,
    {
        if n == 0 {
            Map::empty()
        } else {
            let earlier = self.confirmations((n - 1) as nat);
            if self.reconditions(n - 1) {
                earlier.insert(self.obj_ids[self.best_track(n - 1).0], (n - 1) as usize)
            } else {
                earlier
            }
        }
    }

    pub open spec fn starting(self) -> spec_fn(int) -> bool {
        |i: int| self.starts_object(i)
    }

    pub open spec fn lost(self) -> spec_fn(int) -> bool {
        |j: int| !self.empty(j) && !self.confirmed(j)
    }

    pub open spec fn vacant(self) -> spec_fn(int) -> bool {
        |j: int| self.empty(j)
    }

    pub open spec fn touched_by(self, i: int) -> spec_fn(int) -> bool {
        |j: int| self.touches(i, j)
    }

    pub open spec fn id_of(self) -> spec_fn(int) -> i32 {
        |j: int| self.obj_ids[j]
    }

    pub open spec fn index_of(self) -> spec_fn(int) -> usize {
        |i: int| i as usize
    }

    /// The tracks that a detection touches, by object.
    pub open spec fn touched_ids(self, i: int) -> Seq<i32> {
        picked(self.masks.len(), self.touched_by(i), self.id_of())
    }
}

/// The outcome of the comparison.
pub open spec fn associated(scene: Scene, a: Assoc) -> bool {
    if scene.masks.len() == 0 {
        &&& a.new_det_inds@ == Seq::new(scene.detections.len(), |i: int| i as usize)
        &&& a.unmatched_trk@ == Seq::<i32>::empty()
        &&& a.empty_trk@ == Seq::<i32>::empty()
        &&& a.det_to_matched_trk@ == Seq::<Vec<i32>>::empty()
        &&& a.trk_id_to_max_iou_high_conf_det@ == Map::<i32, usize>::empty()
    } else {
        let (n, m) = (scene.detections.len(), scene.masks.len());
        &&& a.new_det_inds@ == picked(n, scene.starting(), scene.index_of())
        &&& a.unmatched_trk@ == picked(m, scene.lost(), scene.id_of())
        &&& a.empty_trk@ == picked(m, scene.vacant(), scene.id_of())
        &&& rows(a.det_to_matched_trk@) == Seq::new(n, |i: int| scene.touched_ids(i))
        &&& a.trk_id_to_max_iou_high_conf_det@ == scene.confirmations(n)
    }
}

fn binarize_all(masks: &[Vec<Binary32>]) -> (r: Vec<Vec<bool>>)
    ensures
        r@.len() == masks@.len(),
        forall|j: int|
            #![trigger r@[j]]
            0 <= j < masks@.len() ==> r@[j]@ == foreground(masks@[j]@),
{
    let mut r: Vec<Vec<bool>> = Vec::new();
    let mut j: usize = 0;
    while j < masks.len()
        invariant
            j <= masks@.len(),
            r@.len() == j,
            forall|k: int| #![trigger r@[k]] 0 <= k < j ==> r@[k]@ == foreground(masks@[k]@),
        decreases masks@.len() - j,
    {
        r.push(binarize(&masks[j]));
        j = j + 1;
    }
    r
}

/// The overlap of one detection with every track.
fn overlap_row(
    detection: &Detection,
    obj_prompt: &[i32],
    tracks: &[Vec<bool>],
) -> (r: Vec<Binary32>)
    requires
        obj_prompt@.len() >= tracks@.len(),
    ensures
        r@.len() == tracks@.len(),
        forall|j: int|
            #![trigger r@[j]]
            0 <= j < tracks@.len() ==> r@[j] == if detection.prompt_id == obj_prompt@[j] {
                iou(foreground(detection.mask@), tracks@[j]@)
            } else {
                Binary32 { bits: ZERO }
            },
{
    let shape: Vec<bool> = binarize(&detection.mask);
    let mut r: Vec<Binary32> = Vec::new();
    let mut j: usize = 0;
    while j < tracks.len()
        invariant
            j <= tracks@.len(),
            obj_prompt@.len() >= tracks@.len(),
            shape@ == foreground(detection.mask@),
                r@.len() == j,
            forall|k: int|
                #![trigger r@[k]]
                0 <= k < j ==> r@[k] == if detection.prompt_id == obj_prompt@[k] {
                    iou(foreground(detection.mask@), tracks@[k]@)
                } else {
                    Binary32 { bits: ZERO }
                },
        decreases tracks@.len() - j,
    {
        if detection.prompt_id == obj_prompt[j] {
            r.push(mask_iou(&shape, &tracks[j]));
        } else {
            r.push(Binary32 { bits: ZERO });
        }
        j = j + 1;
    }
    r
}

/// Compare the detections on a frame with the tracked masks.
pub fn associate(
    detections: &[Detection],
    obj_ids: &[i32],
    obj_prompt: &[i32],
    trk_masks: &[Vec<Binary32>],
) -> (a: Assoc)
    requires
        obj_ids@.len() >= trk_masks@.len(),
        obj_prompt@.len() >= trk_masks@.len(),
    ensures
        associated(
            (Scene {
                detections: detections@,
                obj_ids: obj_ids@,
                prompts: obj_prompt@,
                masks: rows(trk_masks@),
            }),
            a,
        ),
{
    let n: usize = detections.len();
    let m: usize = trk_masks.len();
    let ghost scene = Scene {
        detections: detections@,
        obj_ids: obj_ids@,
        prompts: obj_prompt@,
        masks: rows(trk_masks@),
    };
    let mut a = Assoc {
        new_det_inds: Vec::new(),
        unmatched_trk: Vec::new(),
        empty_trk: Vec::new(),
        det_to_matched_trk: Vec::new(),
        trk_id_to_max_iou_high_conf_det: BTreeMap::new(),
    };
    if m == 0 {
        let mut inds: Vec<usize> = Vec::new();
        let mut i: usize = 0;
        while i < n
            invariant
                i <= n,
                inds@ == Seq::new(i as nat, |k: int| k as usize),
            decreases n - i,
        {
            inds.push(i);
            i = i + 1;
            assert(inds@ =~= Seq::new(i as nat, |k: int| k as usize));
        }
        a.new_det_inds = inds;
        return a;
    }
    let tracks: Vec<Vec<bool>> = binarize_all(trk_masks);
    let mut table: Vec<Vec<Binary32>> = Vec::new();
    let mut i: usize = 0;
    while i < n
        invariant
            i <= n == detections@.len(),
            m == trk_masks@.len() == tracks@.len(),
            obj_prompt@.len() >= m,
            scene.detections == detections@,
            scene.prompts == obj_prompt@,
            scene.masks == rows(trk_masks@),
            forall|j: int|
                #![trigger tracks@[j]]
                0 <= j < m ==> tracks@[j]@ == foreground(trk_masks@[j]@),
            table@.len() == i,
            forall|k: int| 0 <= k < i ==> (#[trigger] table@[k])@.len() == m,
            forall|k: int, j: int|
                #![trigger table@[k]@[j]]
                0 <= k < i && 0 <= j < m ==> table@[k]@[j] == scene.overlap(k, j),
        decreases n - i,
    {
        let row: Vec<Binary32> = overlap_row(&detections[i], obj_prompt, &tracks);
        assert forall|j: int| 0 <= j < m implies #[trigger] row@[j] == scene.overlap(
            i as int,
            j,
        ) by {
            assert(tracks@[j]@ == foreground(scene.masks[j]));
        }
        table.push(row);
        i = i + 1;
    }
    let mut j: usize = 0;
    while j < m
        invariant
            j <= m,
            m == trk_masks@.len() == tracks@.len(),
            n == detections@.len() == table@.len(),
            obj_ids@.len() >= m,
            scene.detections == detections@,
            scene.obj_ids == obj_ids@,
            scene.masks == rows(trk_masks@),
            forall|j: int|
                #![trigger tracks@[j]]
                0 <= j < m ==> tracks@[j]@ == foreground(trk_masks@[j]@),
            forall|k: int| 0 <= k < n ==> (#[trigger] table@[k])@.len() == m,
            forall|k: int, j: int|
                #![trigger table@[k]@[j]]
                0 <= k < n && 0 <= j < m ==> table@[k]@[j] == scene.overlap(k, j),
            a.new_det_inds@ == Seq::<usize>::empty(),
            a.det_to_matched_trk@ == Seq::<Vec<i32>>::empty(),
            a.trk_id_to_max_iou_high_conf_det@ == Map::<i32, usize>::empty(),
            a.unmatched_trk@ == picked(j as nat, scene.lost(), scene.id_of()),
            a.empty_trk@ == picked(j as nat, scene.vacant(), scene.id_of()),
        decreases m - j,
    {
        let threshold = Binary32 { bits: TRK_ASSOC_IOU_THRESH };
        let mut matched = false;
        let mut k: usize = 0;
        while k < n
            invariant
                k <= n,
                j < m,
                n == table@.len() == scene.detections.len(),
                threshold == (Binary32 { bits: TRK_ASSOC_IOU_THRESH }),
                forall|k: int| 0 <= k < n ==> (#[trigger] table@[k])@.len() == m,
                forall|k: int, j: int|
                    #![trigger table@[k]@[j]]
                    0 <= k < n && 0 <= j < m ==> table@[k]@[j] == scene.overlap(k, j),
                matched ==> scene.confirmed(j as int),
                !matched ==> forall|i: int|
                    0 <= i < k ==> !threshold.at_most(#[trigger] scene.overlap(i, j as int)),
            decreases n - k,
        {
            assert(table@[k as int]@[j as int] == scene.overlap(k as int, j as int));
            if table[k][j].ge(&threshold) {
                matched = true;
            }
            k = k + 1;
        }
        assert(matched == scene.confirmed(j as int));
        assert(tracks@[j as int]@ == foreground(scene.masks[j as int]));
        let covered = any_covered(&tracks[j]);
        if !covered {
            a.empty_trk.push(obj_ids[j]);
        } else if !matched {
            a.unmatched_trk.push(obj_ids[j]);
        }
        j = j + 1;
    }
    let mut i: usize = 0;
    while i < n
        invariant
            i <= n,
            m == trk_masks@.len() > 0,
            n == detections@.len() == table@.len(),
            obj_ids@.len() >= m,
            scene.detections == detections@,
            scene.obj_ids == obj_ids@,
            scene.masks == rows(trk_masks@),
            forall|k: int| 0 <= k < n ==> (#[trigger] table@[k])@.len() == m,
            forall|k: int, j: int|
                #![trigger table@[k]@[j]]
                0 <= k < n && 0 <= j < m ==> table@[k]@[j] == scene.overlap(k, j),
            a.unmatched_trk@ == picked(m as nat, scene.lost(), scene.id_of()),
            a.empty_trk@ == picked(m as nat, scene.vacant(), scene.id_of()),
            a.new_det_inds@ == picked(i as nat, scene.starting(), scene.index_of()),
            a.trk_id_to_max_iou_high_conf_det@ == scene.confirmations(i as nat),
            rows(a.det_to_matched_trk@) == Seq::new(i as nat, |k: int| scene.touched_ids(k)),
        decreases n - i,
    {
        let threshold = Binary32 { bits: ASSOC_IOU_THRESH };
        let mut touched: Vec<i32> = Vec::new();
        let mut touches_any = false;
        let mut best: usize = 0;
        let mut best_iou = Binary32 { bits: MINUS_ONE };
        let mut j: usize = 0;
        while j < m
            invariant
                j <= m,
                i < n,
                m == scene.masks.len() > 0,
                n == table@.len(),
                obj_ids@.len() >= m,
                scene.obj_ids == obj_ids@,
                threshold == (Binary32 { bits: ASSOC_IOU_THRESH }),
                forall|k: int| 0 <= k < n ==> (#[trigger] table@[k])@.len() == m,
                forall|k: int, j: int|
                    #![trigger table@[k]@[j]]
                    0 <= k < n && 0 <= j < m ==> table@[k]@[j] == scene.overlap(k, j),
                touched@ == picked(j as nat, scene.touched_by(i as int), scene.id_of()),
                touches_any ==> exists|k: int| 0 <= k < m && #[trigger] scene.touches(i as int, k),
                !touches_any ==> forall|k: int|
                    0 <= k < j ==> !#[trigger] scene.touches(i as int, k),
                best == 0 || best < j,
                (best as int, best_iou) == running_best(
                    scene.overlaps_of(i as int),
                    Binary32 { bits: MINUS_ONE },
                    j as nat,
                ),
            decreases m - j,
        {
            let value = table[i][j];
            assert(value == scene.overlap(i as int, j as int));
            assert(value == scene.overlaps_of(i as int)(j as int));
            if value.ge(&threshold) {
                assert(scene.touches(i as int, j as int));
                touches_any = true;
                touched.push(obj_ids[j]);
            }
            if value.gt(&best_iou) {
                best = j;
                best_iou = value;
            }
            j = j + 1;
        }
        let score = detections[i].score;
        let is_new = score.ge(&Binary32 { bits: NEW_DET_THRESH }) && !touches_any;
        assert(is_new == scene.starts_object(i as int));
        if is_new {
            a.new_det_inds.push(i);
        }
        if score.ge(&Binary32 { bits: HIGH_CONF_THRESH }) && !is_new && best_iou.ge(
            &Binary32 { bits: HIGH_IOU_THRESH },
        ) {
            a.trk_id_to_max_iou_high_conf_det.insert(obj_ids[best], i);
        }
        let ghost before = a.det_to_matched_trk@;
        a.det_to_matched_trk.push(touched);
        proof {
            assert(rows(a.det_to_matched_trk@) =~= rows(before).push(touched@));
            assert(Seq::new((i + 1) as nat, |k: int| scene.touched_ids(k)) =~= Seq::new(
                i as nat,
                |k: int| scene.touched_ids(k),
            ).push(scene.touched_ids(i as int)));
        }
        i = i + 1;
    }
    a
}

/// A detection that starts an object touches no track and reconditions none.
pub proof fn new_detections_touch_nothing(scene: Scene, i: int)
    requires
        scene.starts_object(i),
    ensures
        scene.touched_ids(i).len() == 0,
        !scene.reconditions(i),
{
    let (p, f) = (scene.touched_by(i), scene.id_of());
    if scene.touched_ids(i).len() > 0 {
        let j = picked_sound(scene.masks.len(), p, f, 0);
        assert(!scene.touches(i, j));
    }
}

/// A track that a detection confirms is among the tracks that some detection touches.
pub proof fn confirmed_tracks_are_touched(scene: Scene, j: int)
    requires
        0 <= j < scene.masks.len(),
        scene.confirmed(j),
    ensures
        exists|i: int|
            0 <= i < scene.detections.len() && #[trigger] scene.touched_ids(i).contains(
                scene.obj_ids[j],
            ),
{
    let i = choose|i: int|
        0 <= i < scene.detections.len() && (Binary32 { bits: TRK_ASSOC_IOU_THRESH }).at_most(
            #[trigger] scene.overlap(i, j),
        );
    assert(scene.touches(i, j));
    picked_complete(scene.masks.len(), scene.touched_by(i), scene.id_of(), j);
    assert(scene.touched_ids(i).contains(scene.obj_ids[j]));
}

/// A detection that reconditions a track touches it, and no track overlaps it more.
pub proof fn reconditioned_track_is_the_closest(scene: Scene, i: int)
    requires
        scene.masks.len() > 0,
        scene.reconditions(i),
    ensures
        ({
            let (j, overlap) = scene.best_track(i);
            &&& 0 <= j < scene.masks.len()
            &&& overlap == scene.overlap(i, j)
            &&& scene.touches(i, j)
            &&& forall|k: int|
                0 <= k < scene.masks.len() ==> !overlap.less(#[trigger] scene.overlap(i, k))
        }),
{
    let values = scene.overlaps_of(i);
    running_best_dominates(values, Binary32 { bits: MINUS_ONE }, scene.masks.len());
    let (j, overlap) = scene.best_track(i);
    assert(overlap == values(j));
    assert forall|k: int| 0 <= k < scene.masks.len() implies !overlap.less(
        #[trigger] scene.overlap(i, k),
    ) by {
        assert(!overlap.less(values(k)));
    }
}

/// Where objects are tracked, a detection starts a new object exactly where its score is seven
/// tenths or more and it overlaps no object of its prompt by a tenth or more.
pub proof fn confident_detections_apart_start_objects(scene: Scene, a: Assoc, i: usize)
    requires
        associated(scene, a),
        scene.masks.len() > 0,
        i < scene.detections.len() <= usize::MAX,
    ensures
        a.new_det_inds@.contains(i) <==> (Binary32 { bits: 0x3f33_3333 }).at_most(
            scene.detections[i as int].score,
        ) && forall|j: int|
            0 <= j < scene.masks.len() && scene.prompts[j] == scene.detections[i as int].prompt_id
                ==> !(Binary32 { bits: 0x3dcc_cccd }).at_most(
                iou(
                    foreground(scene.detections[i as int].mask@),
                    foreground(#[trigger] scene.masks[j]),
                ),
            ),
{
    let n = scene.detections.len();
    let (p, f) = (scene.starting(), scene.index_of());
    let s = i as int;
    if scene.starts_object(s) {
        picked_complete(n, p, f, s);
        assert forall|j: int|
            0 <= j < scene.masks.len() && scene.prompts[j] == scene.detections[s].prompt_id implies !(
        Binary32 { bits: 0x3dcc_cccd }).at_most(
            iou(foreground(scene.detections[s].mask@), foreground(#[trigger] scene.masks[j])),
        ) by {
            assert(!scene.touches(s, j));
        }
    }
    if a.new_det_inds@.contains(i) {
        let k = choose|k: int| 0 <= k < a.new_det_inds@.len() && a.new_det_inds@[k] == i;
        let t = picked_sound(n, p, f, k);
        assert(t == s);
    }
    if !scene.starts_object(s) && (Binary32 { bits: 0x3f33_3333 }).at_most(
        scene.detections[s].score,
    ) {
        let j = choose|j: int| 0 <= j < scene.masks.len() && #[trigger] scene.touches(s, j);
        assert(scene.masks[j] == scene.masks[j]);
        assert(scene.prompts[j] == scene.detections[s].prompt_id);
    }
}

/// A frame on which nothing is tracked starts an object for every detection.
pub proof fn first_detections_all_start_objects(scene: Scene, a: Assoc, i: usize)
    requires
        associated(scene, a),
        scene.masks.len() == 0,
        scene.detections.len() <= usize::MAX,
    ensures
        a.new_det_inds@.contains(i) <==> i < scene.detections.len(),
        a.new_det_inds@.len() == scene.detections.len(),
        a.unmatched_trk@.len() == 0,
        a.empty_trk@.len() == 0,
{
    if i < scene.detections.len() {
        assert(a.new_det_inds@[i as int] == i);
    }
}

/// Of objects with different numbers, one is unmatched exactly where it has foreground and no
/// detection of its prompt overlaps it by a half or more, and empty exactly where it has none.
pub proof fn tracks_without_detection_are_unmatched(scene: Scene, a: Assoc, j: int)
    requires
        associated(scene, a),
        0 <= j < scene.masks.len(),
        forall|k: int|
            0 <= k < scene.masks.len() && k != j ==> #[trigger] scene.obj_ids[k]
                != scene.obj_ids[j],
    ensures
        a.unmatched_trk@.contains(scene.obj_ids[j]) <==> tally(foreground(scene.masks[j])) > 0
            && forall|i: int|
            0 <= i < scene.detections.len() && (#[trigger] scene.detections[i]).prompt_id
                == scene.prompts[j] ==> !(Binary32 { bits: 0x3f00_0000 }).at_most(
                iou(foreground(scene.detections[i].mask@), foreground(scene.masks[j])),
            ),
        a.empty_trk@.contains(scene.obj_ids[j]) <==> tally(foreground(scene.masks[j])) == 0,
{
    let m = scene.masks.len();
    let f = scene.id_of();
    if scene.lost()(j) {
        picked_complete(m, scene.lost(), f, j);
    }
    if scene.vacant()(j) {
        picked_complete(m, scene.vacant(), f, j);
    }
    if a.unmatched_trk@.contains(scene.obj_ids[j]) {
        let k = choose|k: int| 0 <= k < a.unmatched_trk@.len() && a.unmatched_trk@[k]
            == scene.obj_ids[j];
        let t = picked_sound(m, scene.lost(), f, k);
        assert(scene.obj_ids[t] == scene.obj_ids[j]);
        assert(t == j);
    }
    if a.empty_trk@.contains(scene.obj_ids[j]) {
        let k = choose|k: int| 0 <= k < a.empty_trk@.len() && a.empty_trk@[k] == scene.obj_ids[j];
        let t = picked_sound(m, scene.vacant(), f, k);
        assert(scene.obj_ids[t] == scene.obj_ids[j]);
        assert(t == j);
    }
    assert forall|i: int| 0 <= i < scene.detections.len() implies ((Binary32 {
        bits: 0x3f00_0000,
    }).at_most(#[trigger] scene.overlap(i, j)) <==> scene.detections[i].prompt_id
        == scene.prompts[j] && (Binary32 { bits: 0x3f00_0000 }).at_most(
        iou(foreground(scene.detections[i].mask@), foreground(scene.masks[j])),
    )) by {}
    if scene.confirmed(j) {
        let i = choose|i: int|
            0 <= i < scene.detections.len() && (Binary32 { bits: TRK_ASSOC_IOU_THRESH }).at_most(
                #[trigger] scene.overlap(i, j),
            );
        assert(scene.detections[i].prompt_id == scene.prompts[j]);
    } else {
        assert forall|i: int|
            0 <= i < scene.detections.len() && (#[trigger] scene.detections[i]).prompt_id
                == scene.prompts[j] implies !(Binary32 { bits: 0x3f00_0000 }).at_most(
            iou(foreground(scene.detections[i].mask@), foreground(scene.masks[j])),
        ) by {
            assert(!(Binary32 { bits: TRK_ASSOC_IOU_THRESH }).at_most(scene.overlap(i, j)));
        }
    }
}

/// A detection is matched with the objects of its prompt that it overlaps by a tenth or more.
pub proof fn detections_match_what_they_overlap(scene: Scene, a: Assoc, i: int, j: int)
    requires
        associated(scene, a),
        0 <= i < scene.detections.len(),
        0 <= j < scene.masks.len(),
        forall|k: int|
            0 <= k < scene.masks.len() && k != j ==> #[trigger] scene.obj_ids[k]
                != scene.obj_ids[j],
    ensures
        a.det_to_matched_trk@.len() == scene.detections.len(),
        a.det_to_matched_trk@[i]@.contains(scene.obj_ids[j]) <==> scene.detections[i].prompt_id
            == scene.prompts[j] && (Binary32 { bits: 0x3dcc_cccd }).at_most(
            iou(foreground(scene.detections[i].mask@), foreground(scene.masks[j])),
        ),
{
    let m = scene.masks.len();
    let (p, f) = (scene.touched_by(i), scene.id_of());
    assert(rows(a.det_to_matched_trk@).len() == a.det_to_matched_trk@.len());
    assert(rows(a.det_to_matched_trk@)[i] == scene.touched_ids(i));
    let s = scene.touched_ids(i);
    if p(j) {
        picked_complete(m, p, f, j);
    }
    if s.contains(scene.obj_ids[j]) {
        let k = choose|k: int| 0 <= k < s.len() && s[k] == scene.obj_ids[j];
        let t = picked_sound(m, p, f, k);
        assert(scene.obj_ids[t] == scene.obj_ids[j]);
        assert(t == j);
    }
}

proof fn confirmations_are_the_latest(scene: Scene, n: nat, id: i32)
    requires
        n <= usize::MAX,
    ensures
        ({
            let c = scene.confirmations(n);
            &&& c.contains_key(id) ==> {
                &&& c[id] < n
                &&& scene.reconditions(c[id] as int)
                &&& scene.obj_ids[scene.best_track(c[id] as int).0] == id
            }
            &&& forall|i: int|
                0 <= i < n && #[trigger] scene.reconditions(i) && scene.obj_ids[scene.best_track(
                    i,
                ).0] == id ==> c.contains_key(id) && i <= c[id]
        }),
    decreases n,
{
    if n > 0 {
        confirmations_are_the_latest(scene, (n - 1) as nat, id);
    }
}

/// The detection that may renew an object has a score of eight tenths or more and overlaps that
/// object, of its own prompt, by eight tenths or more, and no other object by more.
pub proof fn renewing_detections_are_sure(scene: Scene, a: Assoc, id: i32)
    requires
        associated(scene, a),
        scene.detections.len() <= usize::MAX,
        a.trk_id_to_max_iou_high_conf_det@.contains_key(id),
    ensures
        ({
            let i = a.trk_id_to_max_iou_high_conf_det@[id] as int;
            &&& i < scene.detections.len()
            &&& (Binary32 { bits: 0x3f4c_cccd }).at_most(scene.detections[i].score)
            &&& exists|j: int|
                {
                    &&& 0 <= j < scene.masks.len()
                    &&& scene.obj_ids[j] == id
                    &&& scene.prompts[j] == scene.detections[i].prompt_id
                    &&& (Binary32 { bits: 0x3f4c_cccd }).at_most(
                        iou(
                            foreground(scene.detections[i].mask@),
                            foreground(#[trigger] scene.masks[j]),
                        ),
                    )
                    &&& forall|k: int|
                        0 <= k < scene.masks.len() && scene.prompts[k]
                            == scene.detections[i].prompt_id ==> !iou(
                            foreground(scene.detections[i].mask@),
                            foreground(scene.masks[j]),
                        ).less(
                            iou(
                                foreground(scene.detections[i].mask@),
                                foreground(#[trigger] scene.masks[k]),
                            ),
                        )
                }
        }),
{
    let n = scene.detections.len();
    confirmations_are_the_latest(scene, n, id);
    let i = a.trk_id_to_max_iou_high_conf_det@[id] as int;
    reconditioned_track_is_the_closest(scene, i);
    let (j, overlap) = scene.best_track(i);
    assert(scene.masks[j] == scene.masks[j]);
    assert forall|k: int|
        0 <= k < scene.masks.len() && scene.prompts[k] == scene.detections[i].prompt_id implies !iou(
        foreground(scene.detections[i].mask@),
        foreground(scene.masks[j]),
    ).less(
        iou(foreground(scene.detections[i].mask@), foreground(#[trigger] scene.masks[k])),
    ) by {
        assert(!overlap.less(scene.overlap(i, k)));
    }
}

/// An object that a detection of its prompt overlaps by eight tenths or more, and more than any
/// other object, has a detection to renew it where that detection has a score of eight tenths or
/// more; of several such detections the last is taken.
pub proof fn sure_detections_renew_objects(scene: Scene, a: Assoc, i: int, j: int)
    requires
        associated(scene, a),
        0 <= i < scene.detections.len() <= usize::MAX,
        0 <= j < scene.masks.len(),
        scene.prompts[j] == scene.detections[i].prompt_id,
        (Binary32 { bits: 0x3f4c_cccd }).at_most(scene.detections[i].score),
        (Binary32 { bits: 0x3f4c_cccd }).at_most(
            iou(foreground(scene.detections[i].mask@), foreground(scene.masks[j])),
        ),
        forall|k: int|
            0 <= k < scene.masks.len() && k != j && scene.prompts[k]
                == scene.detections[i].prompt_id ==> iou(
                foreground(scene.detections[i].mask@),
                foreground(#[trigger] scene.masks[k]),
            ).less(iou(foreground(scene.detections[i].mask@), foreground(scene.masks[j]))),
    ensures
        a.trk_id_to_max_iou_high_conf_det@.contains_key(scene.obj_ids[j]),
        i <= a.trk_id_to_max_iou_high_conf_det@[scene.obj_ids[j]],
{
    let values = scene.overlaps_of(i);
    let floor = Binary32 { bits: MINUS_ONE };
    running_best_dominates(values, floor, scene.masks.len());
    let (b, overlap) = scene.best_track(i);
    assert(!overlap.less(values(j)));
    assert(values(j) == scene.overlap(i, j));
    assert(values(b) == scene.overlap(i, b));
    if b != j && b < scene.masks.len() {
        if scene.prompts[b] == scene.detections[i].prompt_id {
            assert(scene.masks[b] == scene.masks[b]);
            assert(scene.overlap(i, b).less(scene.overlap(i, j)));
        } else {
            assert(scene.overlap(i, b).bits == 0);
        }
    }
    assert(b == j);
    assert(scene.touches(i, j));
    assert(scene.reconditions(i));
    confirmations_are_the_latest(scene, scene.detections.len(), scene.obj_ids[j]);
}

proof fn picked_numbers_are_distinct(
    ids: Seq<i32>,
    n: nat,
    p: spec_fn(int) -> bool,
    f: spec_fn(int) -> i32,
)
    requires
        n <= ids.len(),
        ids.no_duplicates(),
        forall|j: int| #[trigger] f(j) == ids[j],
    ensures
        picked(n, p, f).no_duplicates(),
    decreases n,
{
    if n > 0 {
        picked_numbers_are_distinct(ids, (n - 1) as nat, p, f);
        let rest = picked((n - 1) as nat, p, f);
        assert forall|k: int| 0 <= k < rest.len() implies #[trigger] rest[k] != f(n - 1) by {
            let t = picked_sound((n - 1) as nat, p, f, k);
            assert(f(t) == ids[t] && f(n - 1) == ids[n - 1]);
        }
    }
}

/// Of objects with different numbers, each unmatched one is listed once, and only objects of the
/// frame are.
pub proof fn unmatched_tracks_are_listed_once(scene: Scene, a: Assoc)
    requires
        associated(scene, a),
        scene.masks.len() <= scene.obj_ids.len(),
        scene.obj_ids.no_duplicates(),
    ensures
        a.unmatched_trk@.no_duplicates(),
        forall|k: int|
            0 <= k < a.unmatched_trk@.len() ==> scene.obj_ids.contains(
                #[trigger] a.unmatched_trk@[k],
            ),
        forall|i: int, k: int|
            0 <= i < a.det_to_matched_trk@.len() && 0 <= k < a.det_to_matched_trk@[i]@.len()
                ==> scene.obj_ids.contains(#[trigger] a.det_to_matched_trk@[i]@[k]),
{
    let m = scene.masks.len();
    let f = scene.id_of();
    if m > 0 {
        picked_numbers_are_distinct(scene.obj_ids, m, scene.lost(), f);
        assert forall|k: int| 0 <= k < a.unmatched_trk@.len() implies scene.obj_ids.contains(
            #[trigger] a.unmatched_trk@[k],
        ) by {
            let t = picked_sound(m, scene.lost(), f, k);
            assert(scene.obj_ids[t] == a.unmatched_trk@[k]);
        }
        assert forall|i: int, k: int|
            0 <= i < a.det_to_matched_trk@.len() && 0 <= k
                < a.det_to_matched_trk@[i]@.len() implies scene.obj_ids.contains(
            #[trigger] a.det_to_matched_trk@[i]@[k],
        ) by {
            assert(rows(a.det_to_matched_trk@).len() == a.det_to_matched_trk@.len());
            assert(rows(a.det_to_matched_trk@)[i] == scene.touched_ids(i));
            let t = picked_sound(m, scene.touched_by(i), f, k);
            assert(scene.obj_ids[t] == a.det_to_matched_trk@[i]@[k]);
        }
    }
}

} // verus!
