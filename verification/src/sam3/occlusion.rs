//! Suppression of overlapping objects by how recently they were occluded.
use super::hotstart::{contains_id, lookup};
use super::masks::{any_covered, area, binarize, foreground, iou, mask_iou, positive, rows, NO_OBJ_LOGIT};
use crate::binary32::Binary32;
use std::collections::BTreeMap;
use vstd::prelude::*;

verus! {

broadcast use vstd::laws_cmp::group_laws_cmp;

/// The overlap from which two objects compete: seven tenths.
pub const SUPPRESS_OCC_THRESH: u32 = 0x3f33_3333;

/// The last occlusion of an object that has never been occluded.
pub const NEVER_OCCLUDED: i32 = -1;

/// The last occlusion of an unknown object that is being removed.
pub const ALWAYS_OCCLUDED: i32 = 100_000;

/// The frame on which an object was last occluded, as known before this frame.
pub open spec fn last_occlusion(last_occluded: Map<i32, i32>, removed_now: Seq<i32>, id: i32) -> i32 {
    lookup(
        last_occluded,
        id,
        if removed_now.contains(id) {
            ALWAYS_OCCLUDED
        } else {
            NEVER_OCCLUDED
        },
    )
}

/// Objects on a frame with their masks and last occlusions.
#[verifier::ext_equal]
pub struct Rivals {
    pub prompts: Seq<i32>,
    pub masks: Seq<Seq<Binary32>>,
    pub last: Seq<i32>,
}

impl Rivals {
    /// The two objects answer one prompt and overlap enough to compete.
    pub open spec fn compete(self, i: int, j: int) -> bool {
        &&& self.prompts[i] == self.prompts[j]
        &&& (Binary32 { bits: SUPPRESS_OCC_THRESH }).at_most(
            iou(foreground(self.masks[i]), foreground(self.masks[j])),
        )
    }

    /// Object `j` yields to object `i`: it was occluded more recently than `i`, which was
    /// occluded before too.
    pub open spec fn yields(self, j: int, i: int) -> bool {
        i != j && self.compete(i, j) && self.last[j] > self.last[i] > NEVER_OCCLUDED
    }

    /// Object `j` yields to some object.
    pub open spec fn suppressed(self, j: int) -> bool {
        exists|i: int| 0 <= i < self.masks.len() && #[trigger] self.yields(j, i)
    }

    /// The last occlusion of object `j` after the frame.
    pub open spec fn renewed(self, j: int, frame_idx: i32) -> i32 {
        if area(self.masks[j]) == 0 || self.suppressed(j) {
            frame_idx
        } else {
            self.last[j]
        }
    }

    /// The mask of object `j` after the frame.
    pub open spec fn cleared(self, j: int) -> Seq<Binary32> {
        if self.suppressed(j) {
            Seq::new(self.masks[j].len(), |p: int| Binary32 { bits: NO_OBJ_LOGIT })
        } else {
            self.masks[j]
        }
    }

    /// The record of last occlusions after the first `n` objects have been entered.
    pub open spec fn recorded(self, m: Map<i32, i32>, ids: Seq<i32>, frame_idx: i32, n: nat) -> Map<
        i32,
        i32,
    >
        decreases n,
    {
        if n == 0 {
            m
        } else {
            self.recorded(m, ids, frame_idx, (n - 1) as nat).insert(
                ids[n - 1],
                self.renewed(n - 1, frame_idx),
            )
        }
    }
}

/// The objects of a frame before suppression.
pub open spec fn rivals(
    last_occluded: Map<i32, i32>,
    obj_ids: Seq<i32>,
    prompts: Seq<i32>,
    masks: Seq<Seq<Binary32>>,
    removed_now: Seq<i32>,
) -> Rivals {
    Rivals {
        prompts,
        masks,
        last: Seq::new(
            masks.len(),
            |j: int| last_occlusion(last_occluded, removed_now, obj_ids[j]),
        ),
    }
}

/// Suppress overlapping objects, and record who is occluded on this frame.
pub fn suppress_overlapping_recent_occlusion(
    last_occluded: &mut BTreeMap<i32, i32>,
    frame_idx: i32,
    obj_ids: &[i32],
    obj_prompt: &[i32],
    trk_masks: &mut Vec<Vec<Binary32>>,
    removed_now: &[i32],
)
    requires
        obj_ids@.len() >= old(trk_masks)@.len(),
        obj_prompt@.len() >= old(trk_masks)@.len(),
    ensures
        ({
            let r = rivals(
                old(last_occluded)@,
                obj_ids@,
                obj_prompt@,
                rows(old(trk_masks)@),
                removed_now@,
            );
            let n = old(trk_masks)@.len();
            &&& final(last_occluded)@ == r.recorded(
                old(last_occluded)@,
                obj_ids@,
                frame_idx,
                n,
            )
            &&& rows(final(trk_masks)@) == Seq::new(n, |j: int| r.cleared(j))
        }),
        final(trk_masks)@.len() == old(trk_masks)@.len(),
        forall|j: int|
            0 <= j < old(trk_masks)@.len() && (forall|i: int|
                0 <= i < old(trk_masks)@.len() && i != j && #[trigger] obj_prompt@[i]
                    == obj_prompt@[j] ==> iou(
                    foreground(old(trk_masks)@[i]@),
                    foreground(old(trk_masks)@[j]@),
                ).less(Binary32 { bits: 0x3f33_3333 })) ==> (#[trigger] final(trk_masks)@[j])@
                == old(trk_masks)@[j]@,
{
    let n: usize = trk_masks.len();
    let ghost r = rivals(
        last_occluded@,
        obj_ids@,
        obj_prompt@,
        rows(trk_masks@),
        removed_now@,
    );
    let ghost record = last_occluded@;
    let ghost before = trk_masks@;
    let mut shapes: Vec<Vec<bool>> = Vec::new();
    let mut last: Vec<i32> = Vec::new();
    let mut c: usize = 0;
    while c < n
        invariant
            c <= n == trk_masks@.len(),
            obj_ids@.len() >= n,
            trk_masks@ == before,
            last_occluded@ == record,
            r == rivals(record, obj_ids@, obj_prompt@, rows(before), removed_now@),
            shapes@.len() == c,
            forall|j: int| 0 <= j < c ==> (#[trigger] shapes@[j])@ == foreground(r.masks[j]),
            last@ == r.last.take(c as int),
        decreases n - c,
    {
        assert(r.masks[c as int] == trk_masks@[c as int]@);
        shapes.push(binarize(&trk_masks[c]));
        let id: i32 = obj_ids[c];
        let known: i32 = match last_occluded.get(&id) {
            Some(f) => *f,
            None => if contains_id(removed_now, id) {
                ALWAYS_OCCLUDED
            } else {
                NEVER_OCCLUDED
            },
        };
        last.push(known);
        assert(last@ =~= r.last.take(c + 1));
        c = c + 1;
    }
    assert(last@ =~= r.last);
    let threshold = Binary32 { bits: SUPPRESS_OCC_THRESH };
    let mut flags: Vec<bool> = Vec::new();
    let mut j: usize = 0;
    while j < n
        invariant
            j <= n,
            n == shapes@.len() == r.masks.len() == r.last.len(),
            obj_prompt@.len() >= n,
            r.prompts == obj_prompt@,
            last@ == r.last,
            threshold == (Binary32 { bits: SUPPRESS_OCC_THRESH }),
            forall|k: int| 0 <= k < n ==> (#[trigger] shapes@[k])@ == foreground(r.masks[k]),
            flags@.len() == j,
            forall|k: int| 0 <= k < j ==> #[trigger] flags@[k] == r.suppressed(k),
        decreases n - j,
    {
        let mut yields = false;
        let mut i: usize = 0;
        while i < n
            invariant
                i <= n,
                j < n,
                n == shapes@.len() == r.masks.len() == r.last.len(),
                obj_prompt@.len() >= n,
                r.prompts == obj_prompt@,
                last@ == r.last,
                threshold == (Binary32 { bits: SUPPRESS_OCC_THRESH }),
                forall|k: int| 0 <= k < n ==> (#[trigger] shapes@[k])@ == foreground(r.masks[k]),
                yields ==> r.suppressed(j as int),
                !yields ==> forall|k: int| 0 <= k < i ==> !#[trigger] r.yields(j as int, k),
            decreases n - i,
        {
            if i != j && obj_prompt[i] == obj_prompt[j] && last[j] > last[i] && last[i]
                > NEVER_OCCLUDED {
                let overlap = mask_iou(&shapes[i], &shapes[j]);
                if overlap.ge(&threshold) {
                    assert(r.yields(j as int, i as int));
                    yields = true;
                }
            }
            i = i + 1;
        }
        flags.push(yields);
        j = j + 1;
    }
    let none = Binary32 { bits: NO_OBJ_LOGIT };
    let mut k: usize = 0;
    while k < n
        invariant
            k <= n,
            n == shapes@.len() == flags@.len() == r.masks.len() == r.last.len() == trk_masks@.len(),
            obj_ids@.len() >= n,
            last@ == r.last,
            none == (Binary32 { bits: NO_OBJ_LOGIT }),
            forall|i: int| 0 <= i < n ==> (#[trigger] shapes@[i])@ == foreground(r.masks[i]),
            forall|i: int| 0 <= i < n ==> #[trigger] flags@[i] == r.suppressed(i),
            last_occluded@ == r.recorded(record, obj_ids@, frame_idx, k as nat),
            forall|i: int| 0 <= i < k ==> (#[trigger] trk_masks@[i])@ == r.cleared(i),
            forall|i: int| k <= i < n ==> (#[trigger] trk_masks@[i])@ == r.masks[i],
        decreases n - k,
    {
        let covered = any_covered(&shapes[k]);
        assert(covered == (area(r.masks[k as int]) > 0));
        let renewed: i32 = if !covered || flags[k] {
            frame_idx
        } else {
            last[k]
        };
        last_occluded.insert(obj_ids[k], renewed);
        if flags[k] {
            let len: usize = trk_masks[k].len();
            let mut blank: Vec<Binary32> = Vec::new();
            let mut p: usize = 0;
            while p < len
                invariant
                    p <= len,
                    none == (Binary32 { bits: NO_OBJ_LOGIT }),
                    blank@ == Seq::new(p as nat, |q: int| Binary32 { bits: NO_OBJ_LOGIT }),
                decreases len - p,
            {
                blank.push(none);
                p = p + 1;
                assert(blank@ =~= Seq::new(p as nat, |q: int| Binary32 { bits: NO_OBJ_LOGIT }));
            }
            trk_masks[k] = blank;
        }
        k = k + 1;
    }
    assert(rows(trk_masks@) =~= Seq::new(n as nat, |j: int| r.cleared(j)));
    proof {
        assert forall|j: int|
            0 <= j < n && (forall|i: int|
                0 <= i < n && i != j && #[trigger] obj_prompt@[i] == obj_prompt@[j] ==> iou(
                    foreground(before[i]@),
                    foreground(before[j]@),
                ).less(Binary32 { bits: 0x3f33_3333 })) implies (#[trigger] trk_masks@[j])@
            == before[j]@ by {
            objects_apart_keep_their_masks(
                record,
                obj_ids@,
                obj_prompt@,
                rows(before),
                removed_now@,
                frame_idx,
                j,
            );
        }
    }
}

/// Of two competing objects at most one yields to the other.
pub proof fn rivals_do_not_yield_to_each_other(r: Rivals, i: int, j: int)
    ensures
        !(r.yields(i, j) && r.yields(j, i)),
{
}

/// An object occluded no more recently than every other object of its prompt is not suppressed,
/// so each prompt with an object keeps one.
pub proof fn least_recently_occluded_stays(r: Rivals, j: int)
    requires
        0 <= j < r.masks.len(),
        forall|i: int|
            #![trigger r.prompts[i]]
            0 <= i < r.masks.len() && r.prompts[i] == r.prompts[j] ==> r.last[j] <= r.last[i],
    ensures
        !r.suppressed(j),
        r.cleared(j) == r.masks[j],
{
    if r.suppressed(j) {
        let i = choose|i: int| 0 <= i < r.masks.len() && #[trigger] r.yields(j, i);
        assert(r.prompts[i] == r.prompts[j]);
    }
}

/// Competing does not depend on the order of the two objects.
pub proof fn competition_is_symmetric(r: Rivals, i: int, j: int)
    ensures
        r.compete(i, j) == r.compete(j, i),
{
    super::masks::iou_is_symmetric(foreground(r.masks[i]), foreground(r.masks[j]));
}

/// An entry of the record is the renewed occlusion of the last object entered under its number.
proof fn entries_are_renewed(
    r: Rivals,
    m: Map<i32, i32>,
    ids: Seq<i32>,
    frame_idx: i32,
    n: nat,
    j: int,
)
    requires
        0 <= j < n <= ids.len(),
        forall|i: int| 0 <= i < n && i != j ==> #[trigger] ids[i] != ids[j],
    ensures
        r.recorded(m, ids, frame_idx, n).contains_key(ids[j]),
        r.recorded(m, ids, frame_idx, n)[ids[j]] == r.renewed(j, frame_idx),
    decreases n,
{
    if j < n - 1 {
        entries_are_renewed(r, m, ids, frame_idx, (n - 1) as nat, j);
        assert(ids[n - 1] != ids[j]);
    }
}

/// An object whose mask overlaps every other object of its prompt by less than seven tenths keeps
/// its mask; where it has any foreground, its entry in the record is what was known of it before:
/// its earlier entry, or without one the mark of a removed object or of one never occluded.
pub proof fn objects_apart_keep_their_masks(
    known: Map<i32, i32>,
    ids: Seq<i32>,
    prompts: Seq<i32>,
    masks: Seq<Seq<Binary32>>,
    removed_now: Seq<i32>,
    frame_idx: i32,
    j: int,
)
    requires
        0 <= j < masks.len(),
        masks.len() <= ids.len(),
        masks.len() <= prompts.len(),
        forall|i: int|
            0 <= i < masks.len() && i != j && #[trigger] prompts[i] == prompts[j] ==> iou(
                foreground(masks[i]),
                foreground(masks[j]),
            ).less(Binary32 { bits: 0x3f33_3333 }),
    ensures
        ({
            let r = rivals(known, ids, prompts, masks, removed_now);
            let after = r.recorded(known, ids, frame_idx, masks.len());
            &&& r.cleared(j) == masks[j]
            &&& area(masks[j]) > 0 && (forall|i: int|
                0 <= i < masks.len() && i != j ==> #[trigger] ids[i] != ids[j]) ==> {
                &&& after.contains_key(ids[j])
                &&& known.contains_key(ids[j]) ==> after[ids[j]] == known[ids[j]]
                &&& !known.contains_key(ids[j]) && removed_now.contains(ids[j]) ==> after[ids[j]]
                    == 100_000
                &&& !known.contains_key(ids[j]) && !removed_now.contains(ids[j])
                    ==> after[ids[j]] == -1
            }
        }),
{
    let r = rivals(known, ids, prompts, masks, removed_now);
    assert forall|i: int| 0 <= i < masks.len() implies !#[trigger] r.yields(j, i) by {
        if i != j && prompts[i] == prompts[j] {
            assert(iou(foreground(masks[i]), foreground(masks[j])).less(
                Binary32 { bits: 0x3f33_3333 },
            ));
        }
    }
    assert(!r.suppressed(j));
    if forall|i: int| 0 <= i < masks.len() && i != j ==> #[trigger] ids[i] != ids[j] {
        entries_are_renewed(r, known, ids, frame_idx, masks.len(), j);
    }
}

/// An object disjoint from every other object of its prompt keeps its mask.
pub proof fn disjoint_objects_keep_their_masks(
    known: Map<i32, i32>,
    ids: Seq<i32>,
    prompts: Seq<i32>,
    masks: Seq<Seq<Binary32>>,
    removed_now: Seq<i32>,
    j: int,
)
    requires
        0 <= j < masks.len(),
        masks.len() <= ids.len(),
        masks.len() <= prompts.len(),
        masks[j].len() <= u64::MAX,
        forall|i: int|
            0 <= i < masks.len() ==> (#[trigger] masks[i]).len() == masks[j].len(),
        forall|i: int, p: int|
            0 <= i < masks.len() && i != j && prompts[i] == prompts[j] && 0 <= p < masks[j].len()
                ==> !(positive(#[trigger] masks[i][p]) && positive(masks[j][p])),
    ensures
        rivals(known, ids, prompts, masks, removed_now).cleared(j) == masks[j],
{
    assert forall|i: int|
        0 <= i < masks.len() && i != j && #[trigger] prompts[i] == prompts[j] implies iou(
        foreground(masks[i]),
        foreground(masks[j]),
    ).less(Binary32 { bits: 0x3f33_3333 }) by {
        let a = foreground(masks[i]);
        let b = foreground(masks[j]);
        assert(forall|p: int| 0 <= p < masks[j].len() ==> !(positive(#[trigger] masks[i][p])
            && positive(masks[j][p])));
        super::masks::disjoint_masks_do_not_overlap(a, b);
    }
    objects_apart_keep_their_masks(known, ids, prompts, masks, removed_now, 0, j);
}

/// An object is suppressed exactly where another object of its prompt overlaps it by seven tenths
/// or more and was occluded earlier, on a frame that is known: then its mask is the logit minus
/// ten throughout and this frame is its last occlusion.
pub proof fn the_later_occluded_yields(
    known: Map<i32, i32>,
    ids: Seq<i32>,
    prompts: Seq<i32>,
    masks: Seq<Seq<Binary32>>,
    removed_now: Seq<i32>,
    frame_idx: i32,
    i: int,
    j: int,
)
    requires
        0 <= i < masks.len(),
        0 <= j < masks.len(),
        i != j,
        masks.len() <= ids.len(),
        masks.len() <= prompts.len(),
        prompts[i] == prompts[j],
        (Binary32 { bits: 0x3f33_3333 }).at_most(iou(foreground(masks[i]), foreground(masks[j]))),
        known.contains_key(ids[i]),
        known.contains_key(ids[j]),
        0 <= known[ids[i]] < known[ids[j]],
        forall|k: int| 0 <= k < masks.len() && k != j ==> #[trigger] ids[k] != ids[j],
    ensures
        ({
            let r = rivals(known, ids, prompts, masks, removed_now);
            &&& r.cleared(j).len() == masks[j].len()
            &&& forall|p: int|
                0 <= p < masks[j].len() ==> (#[trigger] r.cleared(j)[p]).bits == 0xc120_0000
            &&& r.recorded(known, ids, frame_idx, masks.len())[ids[j]] == frame_idx
        }),
{
    let r = rivals(known, ids, prompts, masks, removed_now);
    assert(r.yields(j, i));
    entries_are_renewed(r, known, ids, frame_idx, masks.len(), j);
}

/// An object that was never occluded, or that no known rival was occluded before, keeps its mask;
/// one without foreground is occluded on this frame.
pub proof fn occlusion_needs_a_record(
    known: Map<i32, i32>,
    ids: Seq<i32>,
    prompts: Seq<i32>,
    masks: Seq<Seq<Binary32>>,
    removed_now: Seq<i32>,
    frame_idx: i32,
    j: int,
)
    requires
        0 <= j < masks.len(),
        masks.len() <= ids.len(),
        masks.len() <= prompts.len(),
        forall|k: int| 0 <= k < masks.len() && k != j ==> #[trigger] ids[k] != ids[j],
    ensures
        ({
            let r = rivals(known, ids, prompts, masks, removed_now);
            &&& !known.contains_key(ids[j]) && !removed_now.contains(ids[j]) ==> r.cleared(j)
                == masks[j]
            &&& (forall|i: int|
                0 <= i < masks.len() && i != j && #[trigger] prompts[i] == prompts[j]
                    ==> known.contains_key(ids[i]) && (known[ids[i]] < 0 || (known.contains_key(
                    ids[j],
                ) && known[ids[j]] <= known[ids[i]]))) ==> r.cleared(j) == masks[j]
            &&& area(masks[j]) == 0 ==> r.recorded(known, ids, frame_idx, masks.len())[ids[j]]
                == frame_idx
        }),
{
    let r = rivals(known, ids, prompts, masks, removed_now);
    entries_are_renewed(r, known, ids, frame_idx, masks.len(), j);
    if r.suppressed(j) {
        let i = choose|i: int| 0 <= i < r.masks.len() && #[trigger] r.yields(j, i);
        assert(prompts[i] == prompts[j]);
    }
}

/// What is recorded of objects that are not on the frame stays.
pub proof fn absent_objects_keep_their_record(
    r: Rivals,
    m: Map<i32, i32>,
    ids: Seq<i32>,
    frame_idx: i32,
    n: nat,
    id: i32,
)
    requires
        n <= ids.len(),
        forall|i: int| 0 <= i < n ==> #[trigger] ids[i] != id,
    ensures
        r.recorded(m, ids, frame_idx, n).contains_key(id) == m.contains_key(id),
        m.contains_key(id) ==> r.recorded(m, ids, frame_idx, n)[id] == m[id],
    decreases n,
{
    if n > 0 {
        absent_objects_keep_their_record(r, m, ids, frame_idx, (n - 1) as nat, id);
        assert(ids[n - 1] != id);
    }
}

/// Every object of the frame is in the record afterwards.
pub proof fn objects_are_recorded(
    r: Rivals,
    m: Map<i32, i32>,
    ids: Seq<i32>,
    frame_idx: i32,
    n: nat,
    j: int,
)
    requires
        0 <= j < n <= ids.len(),
    ensures
        r.recorded(m, ids, frame_idx, n).contains_key(ids[j]),
    decreases n,
{
    if j < n - 1 {
        objects_are_recorded(r, m, ids, frame_idx, (n - 1) as nat, j);
    }
}

} // verus!
