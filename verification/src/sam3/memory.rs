//! The memory bank of a tracked object, and what a frame reads from it.
//!
//! The arrays that the memory encoder produces stay with the tensor backend. The bank holds the
//! handles under which the backend keeps them.
use crate::binary32::Binary32;
use crate::collect::{
    ascending, in_order, in_order_of_finite, ordered_keys, picked, picked_complete, picked_length,
    picked_sound, tally, tally_bounds, tally_monotone, tally_of_all, tally_of_disjoint,
    tally_of_one, tally_of_union, tally_push, tally_strictly_monotone,
};
use std::collections::BTreeMap;
use vstd::prelude::*;

verus! {

broadcast use vstd::laws_cmp::group_laws_cmp;

/// The number of frames that spatial memory spans.
pub const NUM_MASKMEM: i32 = 7;

/// The number of conditioning frames that a frame attends to.
pub const MAX_COND_FRAME_NUM: i32 = 4;

/// The number of object pointers that a frame attends to.
pub const MAX_OBJ_PTRS: i32 = 16;

/// One stored output of an object: handles of its arrays, and its score.
#[derive(Clone, Copy, Debug, PartialEq, Eq, Structural)]
pub struct FrameMem {
    /// The encoded mask memory, absent until the frame has been encoded.
    pub maskmem_features: Option<u64>,
    /// The position encoding of the mask memory, absent until the frame has been encoded.
    pub maskmem_pos_enc: Option<u64>,
    pub object_pointer: u64,
    pub object_score: Binary32,
}

/// The memory of one object: outputs on conditioning frames and on tracked frames.
pub struct ObjectBank {
    pub cond: BTreeMap<i32, FrameMem>,
    pub non_cond: BTreeMap<i32, FrameMem>,
}

/// The memory of one object as maps from frames.
#[verifier::ext_equal]
pub struct Bank {
    pub cond: Map<i32, FrameMem>,
    pub non_cond: Map<i32, FrameMem>,
}

impl View for ObjectBank {
    type V = Bank;

    open spec fn view(&self) -> Bank {
        Bank { cond: self.cond@, non_cond: self.non_cond@ }
    }
}

/// What a frame reads from the memory of an object.
pub struct MemoryPlan {
    /// Temporal offset, mask memory and its position encoding.
    pub spatial: Vec<(i32, u64, u64)>,
    /// Temporal offset and object pointer.
    pub pointers: Vec<(i32, u64)>,
    /// The temporal span by which pointer offsets are normalised.
    pub max_object_pointers: i32,
}

/// Distance between frames.
pub open spec fn distance(t: i32, frame_idx: i32) -> int {
    if t < frame_idx {
        frame_idx - t
    } else {
        t - frame_idx
    }
}

/// `u` comes before `t` by distance from the frame; of two equally near ones the earlier.
pub open spec fn nearer(u: i32, t: i32, frame_idx: i32) -> bool {
    distance(u, frame_idx) < distance(t, frame_idx) || (distance(u, frame_idx) == distance(
        t,
        frame_idx,
    ) && u < t)
}

/// The number of keys before the frame.
pub open spec fn earlier(keys: Seq<i32>, frame_idx: i32) -> nat {
    tally(Seq::new(keys.len(), |k: int| keys[k] < frame_idx))
}

/// The key at position `k` is the last before the frame or the first at or after it.
pub open spec fn adjacent(keys: Seq<i32>, frame_idx: i32, k: int) -> bool {
    k == earlier(keys, frame_idx) - 1 || k == earlier(keys, frame_idx)
}

/// How many keys are adjacent to the frame.
pub open spec fn adjacent_count(keys: Seq<i32>, frame_idx: i32) -> int {
    (if earlier(keys, frame_idx) > 0 {
        1int
    } else {
        0
    }) + if earlier(keys, frame_idx) < keys.len() {
        1int
    } else {
        0
    }
}

/// There is room for a neighbour on each side of the frame.
pub open spec fn room_for_neighbours(max: i32) -> bool {
    max < 0 || 2 <= max
}

/// The conditioning frame at position `k` is taken as a neighbour of the frame.
pub open spec fn anchored(keys: Seq<i32>, frame_idx: i32, max: i32, k: int) -> bool {
    room_for_neighbours(max) && adjacent(keys, frame_idx, k)
}

/// How many are taken as neighbours.
pub open spec fn anchor_count(keys: Seq<i32>, frame_idx: i32, max: i32) -> int {
    if room_for_neighbours(max) {
        adjacent_count(keys, frame_idx)
    } else {
        0
    }
}

/// The remaining keys that come before the key at position `k` by distance.
pub open spec fn closer_ones(keys: Seq<i32>, frame_idx: i32, max: i32, k: int) -> Seq<bool> {
    Seq::new(
        keys.len(),
        |u: int| !anchored(keys, frame_idx, max, u) && nearer(keys[u], keys[k], frame_idx),
    )
}

/// The conditioning frame at position `k` is selected: every one where there are few enough or
/// no limit (-1), otherwise the neighbours where both have room, and the closest of the rest.
pub open spec fn selected(keys: Seq<i32>, frame_idx: i32, max: i32, k: int) -> bool {
    ||| max == -1
    ||| keys.len() <= max
    ||| anchored(keys, frame_idx, max, k)
    ||| tally(closer_ones(keys, frame_idx, max, k)) < max - anchor_count(keys, frame_idx, max)
}

pub open spec fn is_selected(keys: Seq<i32>, frame_idx: i32, max: i32) -> spec_fn(int) -> bool {
    |k: int| selected(keys, frame_idx, max, k)
}

pub open spec fn is_unselected(keys: Seq<i32>, frame_idx: i32, max: i32) -> spec_fn(int) -> bool {
    |k: int| !selected(keys, frame_idx, max, k)
}

pub open spec fn key_at(keys: Seq<i32>) -> spec_fn(int) -> i32 {
    |k: int| keys[k]
}

/// The selected frames in order.
pub open spec fn selected_frames(keys: Seq<i32>, frame_idx: i32, max: i32) -> Seq<i32> {
    picked(keys.len(), is_selected(keys, frame_idx, max), key_at(keys))
}

/// The frames that were not selected, in order.
pub open spec fn unselected_frames(keys: Seq<i32>, frame_idx: i32, max: i32) -> Seq<i32> {
    picked(keys.len(), is_unselected(keys, frame_idx, max), key_at(keys))
}

proof fn earlier_keys_come_first(keys: Seq<i32>, frame_idx: i32, n: nat)
    requires
        ascending(keys),
        n <= keys.len(),
    ensures
        ({
            let c = tally(Seq::new(keys.len(), |k: int| keys[k] < frame_idx).take(n as int));
            &&& c <= n
            &&& forall|k: int| 0 <= k < c ==> keys[k] < frame_idx
            &&& forall|k: int| c <= k < n ==> keys[k] >= frame_idx
        }),
    decreases n,
{
    let s = Seq::new(keys.len(), |k: int| keys[k] < frame_idx);
    if n > 0 {
        earlier_keys_come_first(keys, frame_idx, (n - 1) as nat);
        tally_push(s, n - 1);
        let c = tally(s.take(n - 1));
        if keys[n - 1] < frame_idx && c < n - 1 {
            assert(keys[c as int] < keys[n - 1]);
        }
    }
}

fn magnitude_of_gap(t: i32, frame_idx: i32) -> (r: i64)
    ensures
        r == distance(t, frame_idx),
{
    if t < frame_idx {
        frame_idx as i64 - t as i64
    } else {
        t as i64 - frame_idx as i64
    }
}

/// Whether one frame comes before another by distance.
fn comes_before(u: i32, t: i32, frame_idx: i32) -> (r: bool)
    ensures
        r == nearer(u, t, frame_idx),
{
    let (a, b): (i64, i64) = (magnitude_of_gap(u, frame_idx), magnitude_of_gap(t, frame_idx));
    a < b || (a == b && u < t)
}

/// At most `max` conditioning frames closest to a frame: those selected, and the others.
pub fn select_closest_cond_frames(
    frame_idx: i32,
    cond: &BTreeMap<i32, FrameMem>,
    max: i32,
) -> (r: (Vec<i32>, Vec<i32>))
    ensures
        r.0@ == selected_frames(in_order(cond@.dom()), frame_idx, max),
        r.1@ == unselected_frames(in_order(cond@.dom()), frame_idx, max),
        0 <= max ==> r.0@.len() <= max,
{
    let keys: Vec<i32> = ordered_keys(cond);
    let n: usize = keys.len();
    let all = max == -1 || n as i128 <= max as i128;
    let room = max < 0 || 2 <= max;
    let ghost below = Seq::new(keys@.len(), |k: int| keys@[k] < frame_idx);
    let mut lo: usize = 0;
    let mut i: usize = 0;
    assert(below.take(0) =~= Seq::<bool>::empty());
    while i < n
        invariant
            i <= n == keys@.len(),
            below == Seq::new(keys@.len(), |k: int| keys@[k] < frame_idx),
            lo == tally(below.take(i as int)),
            lo <= i,
        decreases n - i,
    {
        proof {
            tally_push(below, i as int);
        }
        if keys[i] < frame_idx {
            lo = lo + 1;
        }
        i = i + 1;
    }
    assert(below.take(n as int) =~= below);
    assert(lo == earlier(keys@, frame_idx));
    let anchors: i64 = (if room && lo > 0 {
        1i64
    } else {
        0i64
    }) + if room && lo < n {
        1i64
    } else {
        0i64
    };
    let quota: i64 = max as i64 - anchors;
    let mut chosen: Vec<i32> = Vec::new();
    let mut others: Vec<i32> = Vec::new();
    let mut k: usize = 0;
    while k < n
        invariant
            k <= n == keys@.len(),
            all == (max == -1 || n <= max),
            lo == earlier(keys@, frame_idx),
            lo <= n,
            room == room_for_neighbours(max),
            anchors == anchor_count(keys@, frame_idx, max),
            quota == max - anchors,
            chosen@ == picked(k as nat, is_selected(keys@, frame_idx, max), key_at(keys@)),
            others@ == picked(k as nat, is_unselected(keys@, frame_idx, max), key_at(keys@)),
        decreases n - k,
    {
        let ghost closer = closer_ones(keys@, frame_idx, max, k as int);
        let mut before: usize = 0;
        let mut u: usize = 0;
        assert(closer.take(0) =~= Seq::<bool>::empty());
        while u < n
            invariant
                u <= n == keys@.len(),
                k < n,
                lo == earlier(keys@, frame_idx),
                lo <= n,
                room == room_for_neighbours(max),
                closer == closer_ones(keys@, frame_idx, max, k as int),
                before == tally(closer.take(u as int)),
                before <= u,
            decreases n - u,
        {
            proof {
                tally_push(closer, u as int);
            }
            let is_anchored = room && (u == lo || (lo > 0 && u == lo - 1));
            if !is_anchored && comes_before(keys[u], keys[k], frame_idx) {
                before = before + 1;
            }
            u = u + 1;
        }
        assert(closer.take(n as int) =~= closer);
        let keep = all || (room && (k == lo || (lo > 0 && k == lo - 1))) || (before as i128)
            < quota as i128;
        assert(keep == selected(keys@, frame_idx, max, k as int));
        if keep {
            chosen.push(keys[k]);
        } else {
            others.push(keys[k]);
        }
        k = k + 1;
    }
    proof {
        if 0 <= max {
            selection_is_bounded(keys@, frame_idx, max);
        }
    }
    (chosen, others)
}

/// The keys before the frame are exactly the first `earlier` ones, so that the adjacent positions
/// hold the last key before the frame and the first at or after it, and both are selected where
/// there is room for two.
pub proof fn selection_keeps_neighbours(keys: Seq<i32>, frame_idx: i32, max: i32)
    requires
        ascending(keys),
    ensures
        earlier(keys, frame_idx) <= keys.len(),
        forall|k: int| 0 <= k < earlier(keys, frame_idx) ==> keys[k] < frame_idx,
        forall|k: int| earlier(keys, frame_idx) <= k < keys.len() ==> keys[k] >= frame_idx,
        room_for_neighbours(max) ==> forall|k: int|
            adjacent(keys, frame_idx, k) ==> #[trigger] selected(keys, frame_idx, max, k),
{
    earlier_keys_come_first(keys, frame_idx, keys.len());
    let s = Seq::new(keys.len(), |k: int| keys[k] < frame_idx);
    assert(s.take(keys.len() as int) =~= s);
}

/// Beyond the neighbours, every selected frame is nearer than every frame left out.
pub proof fn selection_prefers_the_closest(
    keys: Seq<i32>,
    frame_idx: i32,
    max: i32,
    k: int,
    l: int,
)
    requires
        ascending(keys),
        0 <= k < keys.len(),
        0 <= l < keys.len(),
        selected(keys, frame_idx, max, k),
        !anchored(keys, frame_idx, max, k),
        !selected(keys, frame_idx, max, l),
    ensures
        nearer(keys[k], keys[l], frame_idx),
{
    if !nearer(keys[k], keys[l], frame_idx) {
        assert(k != l);
        assert(keys[k] != keys[l]);
        assert(nearer(keys[l], keys[k], frame_idx));
        closer_counts_less(keys, frame_idx, max, l, k);
    }
}

proof fn closer_counts_less(keys: Seq<i32>, frame_idx: i32, max: i32, l: int, k: int)
    requires
        0 <= k < keys.len(),
        0 <= l < keys.len(),
        !anchored(keys, frame_idx, max, l),
        nearer(keys[l], keys[k], frame_idx),
    ensures
        tally(closer_ones(keys, frame_idx, max, l)) < tally(closer_ones(keys, frame_idx, max, k)),
{
    tally_strictly_monotone(
        closer_ones(keys, frame_idx, max, l),
        closer_ones(keys, frame_idx, max, k),
        l,
    );
}

spec fn ranked_below(keys: Seq<i32>, frame_idx: i32, max: i32, q: nat) -> Seq<bool> {
    Seq::new(
        keys.len(),
        |k: int|
            !anchored(keys, frame_idx, max, k) && tally(closer_ones(keys, frame_idx, max, k)) < q,
    )
}

proof fn few_rank_low(keys: Seq<i32>, frame_idx: i32, max: i32, q: nat)
    requires
        ascending(keys),
    ensures
        tally(ranked_below(keys, frame_idx, max, q)) <= q,
    decreases q,
{
    let s = ranked_below(keys, frame_idx, max, q);
    if q == 0 {
        tally_bounds(s);
    } else {
        let t = ranked_below(keys, frame_idx, max, (q - 1) as nat);
        few_rank_low(keys, frame_idx, max, (q - 1) as nat);
        let at = Seq::new(
            keys.len(),
            |k: int|
                !anchored(keys, frame_idx, max, k) && tally(closer_ones(keys, frame_idx, max, k))
                    == q - 1,
        );
        assert forall|i: int, j: int|
            0 <= i < at.len() && 0 <= j < at.len() && at[i] && at[j] implies i == j by {
            if i < j {
                assert(keys[i] < keys[j]);
            }
            if j < i {
                assert(keys[j] < keys[i]);
            }
            if i != j {
                if nearer(keys[i], keys[j], frame_idx) {
                    closer_counts_less(keys, frame_idx, max, i, j);
                } else {
                    closer_counts_less(keys, frame_idx, max, j, i);
                }
            }
        }
        tally_of_one(at);
        tally_of_union(t, at, s);
    }
}

/// The nearest of the first `n` keys that are marked.
proof fn nearest_marked(keys: Seq<i32>, frame_idx: i32, marks: Seq<bool>, n: nat, some: int) -> (
    i: int)
    requires
        marks.len() == keys.len(),
        n <= keys.len(),
        0 <= some < n,
        marks[some],
    ensures
        0 <= i < n,
        marks[i],
        forall|j: int| 0 <= j < n && #[trigger] marks[j] ==> !nearer(keys[j], keys[i], frame_idx),
    decreases n,
{
    let last = n - 1;
    if exists|j: int| 0 <= j < last && marks[j] {
        let j = choose|j: int| 0 <= j < last && marks[j];
        let i = nearest_marked(keys, frame_idx, marks, last as nat, j);
        if marks[last] && nearer(keys[last], keys[i], frame_idx) {
            last
        } else {
            i
        }
    } else {
        last
    }
}

/// Where more than `q` keys remain, exactly `q` of them rank below `q`.
proof fn enough_rank_low(keys: Seq<i32>, frame_idx: i32, max: i32, q: nat)
    requires
        ascending(keys),
        q < tally(Seq::new(keys.len(), |k: int| !anchored(keys, frame_idx, max, k))),
    ensures
        tally(ranked_below(keys, frame_idx, max, q)) == q,
{
    few_rank_low(keys, frame_idx, max, q);
    let low = ranked_below(keys, frame_idx, max, q);
    let free = Seq::new(keys.len(), |k: int| !anchored(keys, frame_idx, max, k));
    let high = Seq::new(keys.len(), |k: int| free[k] && !low[k]);
    if tally(low) < q {
        if !(exists|j: int| 0 <= j < high.len() && high[j]) {
            assert forall|i: int| 0 <= i < free.len() && free[i] implies low[i] by {
                assert(!high[i]);
            }
            tally_monotone(free, low);
        } else {
            let some = choose|j: int| 0 <= j < high.len() && high[j];
            let k = nearest_marked(keys, frame_idx, high, keys.len(), some);
            let closer = closer_ones(keys, frame_idx, max, k);
            assert forall|u: int| 0 <= u < closer.len() && closer[u] implies low[u] by {
                assert(high[u] ==> !nearer(keys[u], keys[k], frame_idx));
            }
            tally_monotone(closer, low);
        }
    }
}

proof fn anchors_are_counted(keys: Seq<i32>, frame_idx: i32, max: i32)
    requires
        ascending(keys),
    ensures
        tally(Seq::new(keys.len(), |k: int| anchored(keys, frame_idx, max, k))) == anchor_count(
            keys,
            frame_idx,
            max,
        ),
{
    let marks = Seq::new(keys.len(), |k: int| anchored(keys, frame_idx, max, k));
    let lo = earlier(keys, frame_idx) as int;
    selection_keeps_neighbours(keys, frame_idx, max);
    if room_for_neighbours(max) {
        let before = Seq::new(keys.len(), |k: int| k == lo - 1);
        let after = Seq::new(keys.len(), |k: int| k == lo);
        tally_of_one(before);
        tally_of_one(after);
        tally_bounds(before);
        tally_bounds(after);
        if lo > 0 {
            assert(before[lo - 1]);
        }
        if lo < keys.len() {
            assert(after[lo]);
        }
        tally_of_disjoint(before, after, marks);
    } else {
        tally_bounds(marks);
    }
}

/// As many conditioning frames are selected as there are, and where there are more than the limit,
/// exactly the limit.
pub proof fn selection_is_bounded(keys: Seq<i32>, frame_idx: i32, max: i32)
    requires
        ascending(keys),
        0 <= max,
    ensures
        selected_frames(keys, frame_idx, max).len() == (if keys.len() <= max {
            keys.len() as int
        } else {
            max as int
        }),
{
    let p = is_selected(keys, frame_idx, max);
    picked_length(keys.len(), p, key_at(keys));
    let s = Seq::new(keys.len(), p);
    if keys.len() <= max {
        tally_of_all(s);
    } else {
        let marks = Seq::new(keys.len(), |k: int| anchored(keys, frame_idx, max, k));
        let free = Seq::new(keys.len(), |k: int| !anchored(keys, frame_idx, max, k));
        let every = Seq::new(keys.len(), |k: int| true);
        anchors_are_counted(keys, frame_idx, max);
        tally_of_all(every);
        tally_of_disjoint(marks, free, every);
        let q = (max - anchor_count(keys, frame_idx, max)) as nat;
        enough_rank_low(keys, frame_idx, max, q);
        tally_of_disjoint(marks, ranked_below(keys, frame_idx, max, q), s);
    }
}

/// The mask memory of the output has been encoded.
pub open spec fn encoded(m: FrameMem) -> bool {
    m.maskmem_features is Some && m.maskmem_pos_enc is Some
}

/// The spatial memory that an encoded output contributes at a temporal offset.
pub open spec fn memory_at(m: FrameMem, offset: int) -> (i32, u64, u64) {
    (offset as i32, m.maskmem_features->0, m.maskmem_pos_enc->0)
}

/// The output of a frame that spatial memory may use as a tracked one: the tracked output, or a
/// conditioning output that was not selected.
pub open spec fn usable(bank: Bank, unselected: Seq<i32>, frame: i32) -> Option<FrameMem> {
    if bank.non_cond.contains_key(frame) {
        Some(bank.non_cond[frame])
    } else if unselected.contains(frame) && bank.cond.contains_key(frame) {
        Some(bank.cond[frame])
    } else {
        None
    }
}

pub open spec fn conditioning_encoded(bank: Bank, frames: Seq<i32>) -> spec_fn(int) -> bool {
    |k: int| encoded(bank.cond[frames[k]])
}

pub open spec fn conditioning_memory(bank: Bank, frames: Seq<i32>) -> spec_fn(int) -> (
    i32,
    u64,
    u64,
) {
    |k: int| memory_at(bank.cond[frames[k]], 0)
}

/// The `s`-th tracked frame that spatial memory looks at, farthest first.
pub open spec fn looked_at(frame_idx: i32, s: int) -> i32 {
    (frame_idx - (NUM_MASKMEM - 1 - s)) as i32
}

pub open spec fn tracked_encoded(bank: Bank, unselected: Seq<i32>, frame_idx: i32) -> spec_fn(
    int,
) -> bool {
    |s: int|
        usable(bank, unselected, looked_at(frame_idx, s)) is Some && encoded(
            usable(bank, unselected, looked_at(frame_idx, s))->0,
        )
}

pub open spec fn tracked_memory(bank: Bank, unselected: Seq<i32>, frame_idx: i32) -> spec_fn(
    int,
) -> (i32, u64, u64) {
    |s: int|
        memory_at(
            usable(bank, unselected, looked_at(frame_idx, s))->0,
            NUM_MASKMEM - 1 - s,
        )
}

/// The spatial memory that a frame reads: the selected conditioning frames at offset zero, then
/// the preceding frames from the farthest to the nearest.
pub open spec fn spatial_memory(bank: Bank, frame_idx: i32) -> Seq<(i32, u64, u64)> {
    let keys = in_order(bank.cond.dom());
    let chosen = selected_frames(keys, frame_idx, MAX_COND_FRAME_NUM);
    let others = unselected_frames(keys, frame_idx, MAX_COND_FRAME_NUM);
    picked(chosen.len(), conditioning_encoded(bank, chosen), conditioning_memory(bank, chosen))
        + picked(
        (NUM_MASKMEM - 1) as nat,
        tracked_encoded(bank, others, frame_idx),
        tracked_memory(bank, others, frame_idx),
    )
}

/// The span of object pointers in a video of the given length.
pub open spec fn pointer_span(num_frames: i32) -> i32 {
    if num_frames < MAX_OBJ_PTRS {
        num_frames
    } else {
        MAX_OBJ_PTRS
    }
}

/// How far back tracked pointers are collected: within the span and the video.
pub open spec fn pointer_reach(frame_idx: i32, num_frames: i32) -> nat {
    if frame_idx - 1 >= num_frames || pointer_span(num_frames) < 1 {
        0
    } else if frame_idx < pointer_span(num_frames) - 1 {
        frame_idx as nat
    } else {
        (pointer_span(num_frames) - 1) as nat
    }
}

pub open spec fn not_after(keys: Seq<i32>, frame_idx: i32) -> spec_fn(int) -> bool {
    |k: int| keys[k] <= frame_idx
}

pub open spec fn conditioning_pointer(bank: Bank, keys: Seq<i32>, frame_idx: i32) -> spec_fn(
    int,
) -> (i32, u64) {
    |k: int| ((frame_idx - keys[k]) as i32, bank.cond[keys[k]].object_pointer)
}

pub open spec fn tracked_back(bank: Bank, frame_idx: i32) -> spec_fn(int) -> bool {
    |d: int| bank.non_cond.contains_key((frame_idx - (d + 1)) as i32)
}

pub open spec fn tracked_pointer(bank: Bank, frame_idx: i32) -> spec_fn(int) -> (i32, u64) {
    |d: int| ((d + 1) as i32, bank.non_cond[(frame_idx - (d + 1)) as i32].object_pointer)
}

/// The object pointers that a frame reads: the conditioning frames up to it, then the preceding
/// tracked frames from the nearest on.
pub open spec fn object_pointers(bank: Bank, frame_idx: i32, num_frames: i32) -> Seq<(i32, u64)> {
    let keys = in_order(bank.cond.dom());
    picked(keys.len(), not_after(keys, frame_idx), conditioning_pointer(bank, keys, frame_idx))
        + picked(
        pointer_reach(frame_idx, num_frames),
        tracked_back(bank, frame_idx),
        tracked_pointer(bank, frame_idx),
    )
}

/// Frames are numbered from zero.
pub open spec fn frames_valid(bank: Bank) -> bool {
    &&& forall|k: i32| #[trigger] bank.cond.contains_key(k) ==> 0 <= k
    &&& forall|k: i32| #[trigger] bank.non_cond.contains_key(k) ==> 0 <= k
}

impl ObjectBank {
    pub fn new() -> (r: ObjectBank)
        ensures
            r@ == (Bank { cond: Map::empty(), non_cond: Map::empty() }),
    {
        ObjectBank { cond: BTreeMap::new(), non_cond: BTreeMap::new() }
    }

    /// Put the memory of an output at the end of the plan where it has been encoded.
    fn push_memory(spatial: &mut Vec<(i32, u64, u64)>, m: &FrameMem, offset: i32)
        ensures
            final(spatial)@ == if encoded(*m) {
                old(spatial)@.push(memory_at(*m, offset as int))
            } else {
                old(spatial)@
            },
    {
        if let (Some(feat), Some(pos)) = (m.maskmem_features, m.maskmem_pos_enc) {
            spatial.push((offset, feat, pos));
        }
    }

    fn gather_spatial(&self, frame_idx: i32) -> (spatial: Vec<(i32, u64, u64)>)
        requires
            0 <= frame_idx,
        ensures
            spatial@ == spatial_memory(self@, frame_idx),
    {
        let ghost keys = in_order(self.cond@.dom());
        let (chosen, others): (Vec<i32>, Vec<i32>) = select_closest_cond_frames(
            frame_idx,
            &self.cond,
            MAX_COND_FRAME_NUM,
        );
        let mut spatial: Vec<(i32, u64, u64)> = Vec::new();
        let mut k: usize = 0;
        let ghost p = conditioning_encoded(self@, chosen@);
        let ghost f = conditioning_memory(self@, chosen@);
        proof {
            in_order_of_finite(self.cond@.dom());
        }
        while k < chosen.len()
            invariant
                k <= chosen@.len(),
                p == conditioning_encoded(self@, chosen@),
                f == conditioning_memory(self@, chosen@),
                keys == in_order(self.cond@.dom()),
                keys.to_set() == self.cond@.dom(),
                chosen@ == selected_frames(keys, frame_idx, MAX_COND_FRAME_NUM),
                spatial@ == picked(k as nat, p, f),
            decreases chosen@.len() - k,
        {
            let frame: i32 = chosen[k];
            proof {
                let i = picked_sound(
                    keys.len(),
                    is_selected(keys, frame_idx, MAX_COND_FRAME_NUM),
                    key_at(keys),
                    k as int,
                );
                assert(keys[i] == frame);
                assert(keys.to_set().contains(frame));
            }
            if let Some(m) = self.cond.get(&frame) {
                Self::push_memory(&mut spatial, m, 0);
            }
            k = k + 1;
        }
        let ghost first = spatial@;
        let ghost q = tracked_encoded(self@, others@, frame_idx);
        let ghost g = tracked_memory(self@, others@, frame_idx);
        let mut s: i32 = 0;
        assert(first + picked(0, q, g) =~= first);
        while s < NUM_MASKMEM - 1
            invariant
                0 <= s <= NUM_MASKMEM - 1,
                0 <= frame_idx,
                q == tracked_encoded(self@, others@, frame_idx),
                g == tracked_memory(self@, others@, frame_idx),
                spatial@ == first + picked(s as nat, q, g),
            decreases NUM_MASKMEM - 1 - s,
        {
            let rel: i32 = NUM_MASKMEM - 1 - s;
            let prev: i32 = frame_idx - rel;
            assert(prev == looked_at(frame_idx, s as int));
            let ghost here = usable(self@, others@, prev);
            let ghost so_far = spatial@;
            match self.non_cond.get(&prev) {
                Some(m) => {
                    Self::push_memory(&mut spatial, m, rel);
                },
                None => {
                    if contains_frame(&others, prev) {
                        if let Some(m) = self.cond.get(&prev) {
                            Self::push_memory(&mut spatial, m, rel);
                        }
                    }
                },
            }
            proof {
                let before = picked(s as nat, q, g);
                if here is Some && encoded(here->0) {
                    assert(q(s as int));
                    assert(spatial@ =~= first + before.push(g(s as int)));
                }
            }
            s = s + 1;
        }
        spatial
    }

    fn gather_pointers(&self, frame_idx: i32, num_frames: i32) -> (pointers: Vec<(i32, u64)>)
        requires
            0 <= frame_idx,
            frames_valid(self@),
        ensures
            pointers@ == object_pointers(self@, frame_idx, num_frames),
    {
        let keys: Vec<i32> = ordered_keys(&self.cond);
        let ghost p = not_after(keys@, frame_idx);
        let ghost f = conditioning_pointer(self@, keys@, frame_idx);
        let mut pointers: Vec<(i32, u64)> = Vec::new();
        let mut k: usize = 0;
        while k < keys.len()
            invariant
                k <= keys@.len(),
                0 <= frame_idx,
                frames_valid(self@),
                keys@.to_set() == self.cond@.dom(),
                p == not_after(keys@, frame_idx),
                f == conditioning_pointer(self@, keys@, frame_idx),
                pointers@ == picked(k as nat, p, f),
            decreases keys@.len() - k,
        {
            let t: i32 = keys[k];
            assert(keys@.to_set().contains(t));
            assert(self@.cond.contains_key(t));
            if t <= frame_idx {
                if let Some(m) = self.cond.get(&t) {
                    pointers.push((frame_idx - t, m.object_pointer));
                }
            }
            k = k + 1;
        }
        let ghost first = pointers@;
        let ghost q = tracked_back(self@, frame_idx);
        let ghost g = tracked_pointer(self@, frame_idx);
        let span: i32 = if num_frames < MAX_OBJ_PTRS {
            num_frames
        } else {
            MAX_OBJ_PTRS
        };
        let ghost reach = pointer_reach(frame_idx, num_frames);
        let mut t_diff: i32 = 1;
        assert(first + picked(0, q, g) =~= first);
        while t_diff < span && frame_idx - t_diff >= 0 && frame_idx - t_diff < num_frames
            invariant
                1 <= t_diff,
                t_diff - 1 <= reach,
                0 <= frame_idx,
                span == pointer_span(num_frames),
                reach == pointer_reach(frame_idx, num_frames),
                span <= MAX_OBJ_PTRS,
                q == tracked_back(self@, frame_idx),
                g == tracked_pointer(self@, frame_idx),
                pointers@ == first + picked((t_diff - 1) as nat, q, g),
            decreases span - t_diff,
        {
            let r: i32 = frame_idx - t_diff;
            let ghost before = picked((t_diff - 1) as nat, q, g);
            if let Some(m) = self.non_cond.get(&r) {
                pointers.push((t_diff, m.object_pointer));
                proof {
                    assert(q(t_diff - 1));
                    assert(pointers@ =~= first + before.push(g(t_diff - 1)));
                }
            }
            t_diff = t_diff + 1;
        }
        assert(t_diff - 1 == reach);
        pointers
    }

    /// What a frame reads from this memory in a video of `num_frames` frames.
    pub fn gather_memory(&self, frame_idx: i32, num_frames: i32) -> (r: MemoryPlan)
        requires
            0 <= frame_idx,
            frames_valid(self@),
        ensures
            r.spatial@ == spatial_memory(self@, frame_idx),
            r.pointers@ == object_pointers(self@, frame_idx, num_frames),
            r.max_object_pointers == pointer_span(num_frames),
    {
        let span: i32 = if num_frames < MAX_OBJ_PTRS {
            num_frames
        } else {
            MAX_OBJ_PTRS
        };
        MemoryPlan {
            spatial: self.gather_spatial(frame_idx),
            pointers: self.gather_pointers(frame_idx, num_frames),
            max_object_pointers: span,
        }
    }
}

fn contains_frame(frames: &[i32], frame: i32) -> (r: bool)
    ensures
        r == frames@.contains(frame),
{
    let mut i: usize = 0;
    while i < frames.len()
        invariant
            i <= frames@.len(),
            forall|k: int| 0 <= k < i ==> frames@[k] != frame,
        decreases frames@.len() - i,
    {
        if frames[i] == frame {
            return true;
        }
        i = i + 1;
    }
    false
}

/// A frame attends to at most as many mask memories as the conditioning limit and the memory span
/// allow together.
pub proof fn spatial_memory_is_bounded(bank: Bank, frame_idx: i32)
    requires
        bank.cond.dom().finite(),
    ensures
        spatial_memory(bank, frame_idx).len() <= MAX_COND_FRAME_NUM + NUM_MASKMEM - 1,
{
    let keys = in_order(bank.cond.dom());
    in_order_of_finite(bank.cond.dom());
    let chosen = selected_frames(keys, frame_idx, MAX_COND_FRAME_NUM);
    let others = unselected_frames(keys, frame_idx, MAX_COND_FRAME_NUM);
    selection_is_bounded(keys, frame_idx, MAX_COND_FRAME_NUM);
    let (p, f) = (conditioning_encoded(bank, chosen), conditioning_memory(bank, chosen));
    picked_length(chosen.len(), p, f);
    tally_bounds(Seq::new(chosen.len(), p));
    let (q, g) = (tracked_encoded(bank, others, frame_idx), tracked_memory(bank, others, frame_idx));
    picked_length((NUM_MASKMEM - 1) as nat, q, g);
    tally_bounds(Seq::new((NUM_MASKMEM - 1) as nat, q));
}

/// A tracked memory is read by the following frames, as far as spatial memory spans, at its
/// distance.
pub proof fn recent_memory_is_read(bank: Bank, frame: i32, frame_idx: i32)
    requires
        0 <= frame < frame_idx,
        frame_idx - frame < NUM_MASKMEM,
        bank.non_cond.contains_key(frame),
        encoded(bank.non_cond[frame]),
    ensures
        spatial_memory(bank, frame_idx).contains(
            memory_at(bank.non_cond[frame], frame_idx - frame),
        ),
{
    let keys = in_order(bank.cond.dom());
    let chosen = selected_frames(keys, frame_idx, MAX_COND_FRAME_NUM);
    let others = unselected_frames(keys, frame_idx, MAX_COND_FRAME_NUM);
    let first = picked(
        chosen.len(),
        conditioning_encoded(bank, chosen),
        conditioning_memory(bank, chosen),
    );
    let (q, g) = (tracked_encoded(bank, others, frame_idx), tracked_memory(bank, others, frame_idx));
    let n = (NUM_MASKMEM - 1) as nat;
    let at = NUM_MASKMEM - 1 - (frame_idx - frame);
    assert(looked_at(frame_idx, at) == frame);
    assert(q(at));
    picked_complete(n, q, g, at);
    let second = picked(n, q, g);
    let k = choose|k: int| 0 <= k < second.len() && second[k] == g(at);
    assert((first + second)[first.len() + k] == g(at));
}

/// The last conditioning memory before a frame is read by that frame, at offset zero.
pub proof fn latest_conditioning_is_read(bank: Bank, frame: i32, frame_idx: i32)
    requires
        bank.cond.dom().finite(),
        bank.cond.contains_key(frame),
        frame < frame_idx,
        encoded(bank.cond[frame]),
        forall|t: i32| #[trigger] bank.cond.contains_key(t) && t < frame_idx ==> t <= frame,
    ensures
        spatial_memory(bank, frame_idx).contains(memory_at(bank.cond[frame], 0)),
{
    let keys = in_order(bank.cond.dom());
    in_order_of_finite(bank.cond.dom());
    selection_keeps_neighbours(keys, frame_idx, MAX_COND_FRAME_NUM);
    assert(keys.to_set().contains(frame));
    let i = choose|i: int| 0 <= i < keys.len() && keys[i] == frame;
    let lo = earlier(keys, frame_idx);
    if i + 1 < lo {
        assert(keys.to_set().contains(keys[lo - 1]));
        assert(bank.cond.contains_key(keys[lo - 1]));
        assert(keys[i] < keys[lo - 1]);
    }
    assert(adjacent(keys, frame_idx, i));
    let sel = is_selected(keys, frame_idx, MAX_COND_FRAME_NUM);
    assert(sel(i));
    picked_complete(keys.len(), sel, key_at(keys), i);
    let chosen = selected_frames(keys, frame_idx, MAX_COND_FRAME_NUM);
    assert(key_at(keys)(i) == frame);
    let c = choose|c: int| 0 <= c < chosen.len() && chosen[c] == frame;
    let (p, f) = (conditioning_encoded(bank, chosen), conditioning_memory(bank, chosen));
    assert(p(c));
    picked_complete(chosen.len(), p, f, c);
    let first = picked(chosen.len(), p, f);
    let k = choose|k: int| 0 <= k < first.len() && first[k] == f(c);
    assert(spatial_memory(bank, frame_idx)[k] == f(c));
}

/// The pointer of a conditioning frame is read by every frame from there on.
pub proof fn conditioning_pointers_are_read(
    bank: Bank,
    frame: i32,
    frame_idx: i32,
    num_frames: i32,
)
    requires
        bank.cond.dom().finite(),
        bank.cond.contains_key(frame),
        0 <= frame <= frame_idx,
    ensures
        object_pointers(bank, frame_idx, num_frames).contains(
            ((frame_idx - frame) as i32, bank.cond[frame].object_pointer),
        ),
{
    let keys = in_order(bank.cond.dom());
    in_order_of_finite(bank.cond.dom());
    assert(keys.to_set().contains(frame));
    let i = choose|i: int| 0 <= i < keys.len() && keys[i] == frame;
    let (p, f) = (not_after(keys, frame_idx), conditioning_pointer(bank, keys, frame_idx));
    assert(p(i));
    picked_complete(keys.len(), p, f, i);
    let first = picked(keys.len(), p, f);
    let k = choose|k: int| 0 <= k < first.len() && first[k] == f(i);
    assert(object_pointers(bank, frame_idx, num_frames)[k] == f(i));
}

/// The pointer of a tracked frame is read by the following frames, as far as the span of pointers
/// reaches.
pub proof fn recent_pointers_are_read(bank: Bank, frame: i32, frame_idx: i32, num_frames: i32)
    requires
        bank.non_cond.contains_key(frame),
        0 <= frame < frame_idx <= num_frames,
        frame_idx - frame < pointer_span(num_frames),
    ensures
        object_pointers(bank, frame_idx, num_frames).contains(
            ((frame_idx - frame) as i32, bank.non_cond[frame].object_pointer),
        ),
{
    let keys = in_order(bank.cond.dom());
    let first = picked(
        keys.len(),
        not_after(keys, frame_idx),
        conditioning_pointer(bank, keys, frame_idx),
    );
    let n = pointer_reach(frame_idx, num_frames);
    let (q, g) = (tracked_back(bank, frame_idx), tracked_pointer(bank, frame_idx));
    let d = frame_idx - frame - 1;
    assert(q(d));
    picked_complete(n, q, g, d);
    let second = picked(n, q, g);
    let k = choose|k: int| 0 <= k < second.len() && second[k] == g(d);
    assert((first + second)[first.len() + k] == g(d));
}

/// Of more prompted frames than may be read, the last before the current frame and the first from
/// it on are chosen where two or more may be; the others are chosen by how near they are.
pub proof fn near_frames_are_chosen(keys: Seq<i32>, frame_idx: i32, max: i32, k: int, l: int)
    requires
        ascending(keys),
        0 <= k < keys.len(),
        0 <= l < keys.len(),
    ensures
        2 <= max && keys[k] < frame_idx && (k + 1 < keys.len() ==> keys[k + 1] >= frame_idx)
            ==> selected(keys, frame_idx, max, k),
        2 <= max && keys[k] >= frame_idx && (k > 0 ==> keys[k - 1] < frame_idx) ==> selected(
            keys,
            frame_idx,
            max,
            k,
        ),
        max == -1 || keys.len() <= max ==> selected(keys, frame_idx, max, k),
        selected(keys, frame_idx, max, k) && !selected(keys, frame_idx, max, l) && !(keys[k]
            < frame_idx && (k + 1 < keys.len() ==> keys[k + 1] >= frame_idx)) && !(keys[k]
            >= frame_idx && (k > 0 ==> keys[k - 1] < frame_idx)) ==> {
            let near = if keys[k] < frame_idx {
                frame_idx - keys[k]
            } else {
                keys[k] - frame_idx
            };
            let far = if keys[l] < frame_idx {
                frame_idx - keys[l]
            } else {
                keys[l] - frame_idx
            };
            near < far || (near == far && keys[k] < keys[l])
        },
{
    selection_keeps_neighbours(keys, frame_idx, max);
    let e = earlier(keys, frame_idx);
    if keys[k] < frame_idx && (k + 1 < keys.len() ==> keys[k + 1] >= frame_idx) {
        assert(k == e - 1);
        assert(adjacent(keys, frame_idx, k));
    } else if keys[k] >= frame_idx && (k > 0 ==> keys[k - 1] < frame_idx) {
        assert(k == e);
        assert(adjacent(keys, frame_idx, k));
    } else {
        if k == e - 1 {
            assert(keys[k] < frame_idx);
        }
        if k == e {
            assert(keys[k] >= frame_idx);
        }
        assert(!anchored(keys, frame_idx, max, k));
        if selected(keys, frame_idx, max, k) && !selected(keys, frame_idx, max, l) {
            selection_prefers_the_closest(keys, frame_idx, max, k, l);
        }
    }
}

/// What is read beside the current frame: up to four prompted frames at offset zero, and up to six
/// frames before it, each at its distance.
pub proof fn memories_are_read_at_their_distance(
    bank: Bank,
    frame_idx: i32,
    e: (i32, u64, u64),
)
    requires
        bank.cond.dom().finite(),
        0 <= frame_idx,
        spatial_memory(bank, frame_idx).contains(e),
    ensures
        0 <= e.0 <= 6,
        e.0 == 0 ==> exists|f: i32| #[trigger]
            bank.cond.contains_key(f) && bank.cond[f].maskmem_features == Some(e.1)
                && bank.cond[f].maskmem_pos_enc == Some(e.2),
        e.0 > 0 ==> {
            let f = (frame_idx - e.0) as i32;
            ||| bank.non_cond.contains_key(f) && bank.non_cond[f].maskmem_features == Some(e.1)
                && bank.non_cond[f].maskmem_pos_enc == Some(e.2)
            ||| !bank.non_cond.contains_key(f) && bank.cond.contains_key(f)
                && bank.cond[f].maskmem_features == Some(e.1) && bank.cond[f].maskmem_pos_enc
                == Some(e.2)
        },
        spatial_memory(bank, frame_idx).len() <= 10,
{
    let keys = in_order(bank.cond.dom());
    in_order_of_finite(bank.cond.dom());
    spatial_memory_is_bounded(bank, frame_idx);
    let chosen = selected_frames(keys, frame_idx, MAX_COND_FRAME_NUM);
    let others = unselected_frames(keys, frame_idx, MAX_COND_FRAME_NUM);
    let (p, f) = (conditioning_encoded(bank, chosen), conditioning_memory(bank, chosen));
    let (q, g) = (
        tracked_encoded(bank, others, frame_idx),
        tracked_memory(bank, others, frame_idx),
    );
    let first = picked(chosen.len(), p, f);
    let second = picked((NUM_MASKMEM - 1) as nat, q, g);
    let k = choose|k: int| 0 <= k < (first + second).len() && (first + second)[k] == e;
    if k < first.len() {
        let i = picked_sound(chosen.len(), p, f, k);
        let t = picked_sound(
            keys.len(),
            is_selected(keys, frame_idx, MAX_COND_FRAME_NUM),
            key_at(keys),
            i,
        );
        assert(keys.to_set().contains(keys[t]));
        assert(bank.cond.contains_key(chosen[i]));
    } else {
        let s = picked_sound((NUM_MASKMEM - 1) as nat, q, g, k - first.len());
        assert(looked_at(frame_idx, s) == frame_idx - e.0);
    }
}

/// A frame up to six frames back is read at its distance.
pub proof fn six_frames_back_are_read(bank: Bank, frame: i32, frame_idx: i32)
    requires
        0 <= frame < frame_idx,
        frame_idx - frame <= 6,
        bank.non_cond.contains_key(frame),
        bank.non_cond[frame].maskmem_features is Some,
        bank.non_cond[frame].maskmem_pos_enc is Some,
    ensures
        spatial_memory(bank, frame_idx).contains(
            (
                (frame_idx - frame) as i32,
                bank.non_cond[frame].maskmem_features->0,
                bank.non_cond[frame].maskmem_pos_enc->0,
            ),
        ),
{
    recent_memory_is_read(bank, frame, frame_idx);
}

/// Where no more than four frames were prompted, the memory of every one of them is read at offset
/// zero.
pub proof fn four_prompted_frames_are_read(bank: Bank, frame: i32, frame_idx: i32)
    requires
        bank.cond.dom().finite(),
        bank.cond.dom().len() <= 4,
        bank.cond.contains_key(frame),
        bank.cond[frame].maskmem_features is Some,
        bank.cond[frame].maskmem_pos_enc is Some,
    ensures
        spatial_memory(bank, frame_idx).contains(
            (0i32, bank.cond[frame].maskmem_features->0, bank.cond[frame].maskmem_pos_enc->0),
        ),
{
    let keys = in_order(bank.cond.dom());
    in_order_of_finite(bank.cond.dom());
    assert(keys.no_duplicates());
    keys.unique_seq_to_set();
    assert(keys.len() <= 4);
    let chosen = selected_frames(keys, frame_idx, MAX_COND_FRAME_NUM);
    let others = unselected_frames(keys, frame_idx, MAX_COND_FRAME_NUM);
    assert(keys.to_set().contains(frame));
    picked_complete(
        keys.len(),
        is_selected(keys, frame_idx, MAX_COND_FRAME_NUM),
        key_at(keys),
        keys.index_of(frame),
    );
    let c = choose|c: int| 0 <= c < chosen.len() && chosen[c] == frame;
    let (p, f) = (conditioning_encoded(bank, chosen), conditioning_memory(bank, chosen));
    picked_complete(chosen.len(), p, f, c);
    let first = picked(chosen.len(), p, f);
    let second = picked(
        (NUM_MASKMEM - 1) as nat,
        tracked_encoded(bank, others, frame_idx),
        tracked_memory(bank, others, frame_idx),
    );
    let k = choose|k: int| 0 <= k < first.len() && first[k] == f(c);
    assert((first + second)[k] == f(c));
}

/// A pointer that is read is that of a prompted frame up to the current one or of a tracked frame
/// before it, beside its distance; tracked frames are fewer than sixteen steps back.
pub proof fn pointers_are_read_at_their_distance(
    bank: Bank,
    frame_idx: i32,
    num_frames: i32,
    e: (i32, u64),
)
    requires
        bank.cond.dom().finite(),
        frames_valid(bank),
        0 <= frame_idx,
        object_pointers(bank, frame_idx, num_frames).contains(e),
    ensures
        ({
            let f = (frame_idx - e.0) as i32;
            &&& 0 <= e.0 <= frame_idx
            &&& (bank.cond.contains_key(f) && bank.cond[f].object_pointer == e.1) || (1 <= e.0 < 16
                && e.0 < num_frames && bank.non_cond.contains_key(f)
                && bank.non_cond[f].object_pointer == e.1)
        }),
{
    let keys = in_order(bank.cond.dom());
    in_order_of_finite(bank.cond.dom());
    let (p, f) = (not_after(keys, frame_idx), conditioning_pointer(bank, keys, frame_idx));
    let (q, g) = (tracked_back(bank, frame_idx), tracked_pointer(bank, frame_idx));
    let reach = pointer_reach(frame_idx, num_frames);
    let first = picked(keys.len(), p, f);
    let second = picked(reach, q, g);
    let k = choose|k: int| 0 <= k < (first + second).len() && (first + second)[k] == e;
    if k < first.len() {
        let i = picked_sound(keys.len(), p, f, k);
        assert(keys.to_set().contains(keys[i]));
        assert(bank.cond.contains_key(keys[i]));
    } else {
        let d = picked_sound(reach, q, g, k - first.len());
    }
}

/// The pointers of the frames before the current one are read, as far as fifteen steps back and as
/// far as the clip is long.
pub proof fn fifteen_pointers_back_are_read(
    bank: Bank,
    frame: i32,
    frame_idx: i32,
    num_frames: i32,
)
    requires
        bank.non_cond.contains_key(frame),
        0 <= frame < frame_idx <= num_frames,
        frame_idx - frame <= 15,
        frame_idx - frame < num_frames,
    ensures
        object_pointers(bank, frame_idx, num_frames).contains(
            ((frame_idx - frame) as i32, bank.non_cond[frame].object_pointer),
        ),
        pointer_span(num_frames) == if num_frames < 16 {
            num_frames
        } else {
            16
        },
{
    recent_pointers_are_read(bank, frame, frame_idx, num_frames);
}

} // verus!
