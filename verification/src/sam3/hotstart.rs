//! Probation of young objects.
//!
//! A new object is watched for a number of frames. One that too often goes without a detection,
//! or too often shares its detection with an older object, is removed while it is still young.
use super::association::Assoc;
use super::masks::rows;
use crate::collect::{
    ascending, in_order, in_order_of_finite, ordered_keys, ordered_members, ordered_pairs,
    pairs_in_order, pairs_in_order_of_finite, picked, picked_complete, picked_sound, tally,
};
use std::collections::{BTreeMap, BTreeSet};
use vstd::prelude::*;

verus! {

broadcast use vstd::laws_cmp::group_laws_cmp;

/// The keep-alive budget of a new object.
pub const INIT_KEEP_ALIVE: i32 = 30;

/// The largest keep-alive budget.
pub const MAX_KEEP_ALIVE: i32 = 30;

/// The smallest keep-alive budget.
pub const MIN_KEEP_ALIVE: i32 = -1;

/// The number of frames for which an object counts as young.
pub const HOTSTART_DELAY: i32 = 15;

/// The number of unmatched frames that removes a young object.
pub const HOTSTART_UNMATCH: usize = 8;

/// The number of shared detections that removes a young object.
pub const HOTSTART_DUP: usize = 8;

/// Bookkeeping on the objects of a session, by object id.
pub struct Hotstart {
    pub first_frame: BTreeMap<i32, i32>,
    pub unmatched_frames: BTreeMap<i32, Vec<i32>>,
    pub keep_alive: BTreeMap<i32, i32>,
    pub overlap_pairs: BTreeMap<(i32, i32), Vec<i32>>,
    pub removed: BTreeSet<i32>,
}

/// The bookkeeping as mathematical maps.
#[verifier::ext_equal]
pub struct Watch {
    pub first_frame: Map<i32, i32>,
    pub unmatched_frames: Map<i32, Seq<i32>>,
    pub keep_alive: Map<i32, i32>,
    pub overlap_pairs: Map<(i32, i32), Seq<i32>>,
    pub removed: Set<i32>,
}

/// The logs of a map of vectors.
pub open spec fn logs<K>(m: Map<K, Vec<i32>>) -> Map<K, Seq<i32>> {
    m.map_values(|v: Vec<i32>| v@)
}

impl View for Hotstart {
    type V = Watch;

    open spec fn view(&self) -> Watch {
        Watch {
            first_frame: self.first_frame@,
            unmatched_frames: logs(self.unmatched_frames@),
            keep_alive: self.keep_alive@,
            overlap_pairs: logs(self.overlap_pairs@),
            removed: self.removed@,
        }
    }
}

/// The value under a key, or a default.
pub open spec fn lookup(m: Map<i32, i32>, k: i32, default: i32) -> i32 {
    if m.contains_key(k) {
        m[k]
    } else {
        default
    }
}

/// Note the frame on which each object first appeared.
pub open spec fn noted(m: Map<i32, i32>, ids: Seq<i32>, frame_idx: i32) -> Map<i32, i32>
    decreases ids.len(),
{
    if ids.len() == 0 {
        m
    } else {
        let earlier = noted(m, ids.drop_last(), frame_idx);
        if earlier.contains_key(ids.last()) {
            earlier
        } else {
            earlier.insert(ids.last(), frame_idx)
        }
    }
}

/// Give each object the initial budget.
pub open spec fn started(m: Map<i32, i32>, ids: Seq<i32>) -> Map<i32, i32>
    decreases ids.len(),
{
    if ids.len() == 0 {
        m
    } else {
        started(m, ids.drop_last()).insert(ids.last(), INIT_KEEP_ALIVE)
    }
}

/// A budget one higher, within its bound.
pub open spec fn higher(k: i32) -> i32 {
    if k + 1 < MAX_KEEP_ALIVE {
        (k + 1) as i32
    } else {
        MAX_KEEP_ALIVE
    }
}

/// A budget one lower, within its bound.
pub open spec fn lower(k: i32) -> i32 {
    if k - 1 > MIN_KEEP_ALIVE {
        (k - 1) as i32
    } else {
        MIN_KEEP_ALIVE
    }
}

/// Raise the budget of each object.
pub open spec fn raised(m: Map<i32, i32>, ids: Seq<i32>) -> Map<i32, i32>
    decreases ids.len(),
{
    if ids.len() == 0 {
        m
    } else {
        let earlier = raised(m, ids.drop_last());
        earlier.insert(ids.last(), higher(lookup(earlier, ids.last(), INIT_KEEP_ALIVE)))
    }
}

/// Lower the budget of each object.
pub open spec fn lowered(m: Map<i32, i32>, ids: Seq<i32>) -> Map<i32, i32>
    decreases ids.len(),
{
    if ids.len() == 0 {
        m
    } else {
        let earlier = lowered(m, ids.drop_last());
        earlier.insert(ids.last(), lower(lookup(earlier, ids.last(), INIT_KEEP_ALIVE)))
    }
}

/// The log under a key, empty where there is none.
pub open spec fn log_of<K>(m: Map<K, Seq<i32>>, k: K) -> Seq<i32> {
    if m.contains_key(k) {
        m[k]
    } else {
        Seq::empty()
    }
}

/// Add the frame to the log of each key.
pub open spec fn logged<K>(m: Map<K, Seq<i32>>, keys: Seq<K>, frame_idx: i32) -> Map<K, Seq<i32>>
    decreases keys.len(),
{
    if keys.len() == 0 {
        m
    } else {
        let earlier = logged(m, keys.drop_last(), frame_idx);
        earlier.insert(keys.last(), log_of(earlier, keys.last()).push(frame_idx))
    }
}

/// The objects that some detection touches.
pub open spec fn mentioned(touched: Seq<Seq<i32>>) -> Set<i32>
    decreases touched.len(),
{
    if touched.len() == 0 {
        Set::empty()
    } else {
        mentioned(touched.drop_last()).union(touched.last().to_set())
    }
}

/// The object that appeared first among the first `n` of a list; the earliest listed of equals.
pub open spec fn eldest(ids: Seq<i32>, first_frame: Map<i32, i32>, n: nat) -> i32
    decreases n,
{
    if n <= 1 {
        ids[0]
    } else {
        let before = eldest(ids, first_frame, (n - 1) as nat);
        if lookup(first_frame, ids[n - 1], 0) < lookup(first_frame, before, 0) {
            ids[n - 1]
        } else {
            before
        }
    }
}

pub open spec fn other_than(ids: Seq<i32>, id: i32) -> spec_fn(int) -> bool {
    |t: int| ids[t] != id
}

pub open spec fn paired_with(ids: Seq<i32>, id: i32) -> spec_fn(int) -> (i32, i32) {
    |t: int| (id, ids[t])
}

/// The pairs of the eldest object under a detection with each of the others.
pub open spec fn sharing(ids: Seq<i32>, first_frame: Map<i32, i32>) -> Seq<(i32, i32)> {
    if ids.len() < 2 {
        Seq::empty()
    } else {
        let first = eldest(ids, first_frame, ids.len());
        picked(ids.len(), other_than(ids, first), paired_with(ids, first))
    }
}

/// Log every shared detection.
pub open spec fn shared(
    m: Map<(i32, i32), Seq<i32>>,
    touched: Seq<Seq<i32>>,
    first_frame: Map<i32, i32>,
    frame_idx: i32,
) -> Map<(i32, i32), Seq<i32>>
    decreases touched.len(),
{
    if touched.len() == 0 {
        m
    } else {
        logged(
            shared(m, touched.drop_last(), first_frame, frame_idx),
            sharing(touched.last(), first_frame),
            frame_idx,
        )
    }
}

/// The object first appeared within the probation window that ends at this frame.
pub open spec fn young(first_frame: Map<i32, i32>, id: i32, frame_idx: i32) -> bool {
    lookup(first_frame, id, 0) > frame_idx - HOTSTART_DELAY
}

pub open spec fn often_unmatched(
    w: Watch,
    keys: Seq<i32>,
    frame_idx: i32,
) -> spec_fn(int) -> bool {
    |t: int|
        !w.removed.contains(keys[t]) && w.unmatched_frames[keys[t]].len() >= HOTSTART_UNMATCH
            && young(w.first_frame, keys[t], frame_idx)
}

pub open spec fn listed(keys: Seq<i32>) -> spec_fn(int) -> i32 {
    |t: int| keys[t]
}

/// The young objects that have gone unmatched too often, in id order.
pub open spec fn unmatched_removals(w: Watch, frame_idx: i32) -> Seq<i32> {
    let keys = in_order(w.unmatched_frames.dom());
    picked(keys.len(), often_unmatched(w, keys, frame_idx), listed(keys))
}

/// Add the young objects that have shared a detection too often, in the order of the pairs.
pub open spec fn duplicate_removals(
    w: Watch,
    flagged: Seq<i32>,
    pairs: Seq<(i32, i32)>,
    n: nat,
    frame_idx: i32,
) -> Seq<i32>
    decreases n,
{
    if n == 0 {
        flagged
    } else {
        let before = duplicate_removals(w, flagged, pairs, (n - 1) as nat, frame_idx);
        let pair = pairs[n - 1];
        if !w.removed.contains(pair.1) && !before.contains(pair.1) && young(
            w.first_frame,
            pair.1,
            frame_idx,
        ) && w.overlap_pairs[pair].len() >= HOTSTART_DUP {
            before.push(pair.1)
        } else {
            before
        }
    }
}

/// The bookkeeping after a frame, before anything is removed.
pub open spec fn observed(
    w: Watch,
    frame_idx: i32,
    touched: Seq<Seq<i32>>,
    unmatched: Seq<i32>,
    new_obj_ids: Seq<i32>,
) -> Watch {
    let first_frame = noted(w.first_frame, new_obj_ids, frame_idx);
    Watch {
        first_frame,
        unmatched_frames: logged(w.unmatched_frames, unmatched, frame_idx),
        keep_alive: lowered(
            raised(started(w.keep_alive, new_obj_ids), in_order(mentioned(touched))),
            unmatched,
        ),
        overlap_pairs: shared(w.overlap_pairs, touched, first_frame, frame_idx),
        removed: w.removed,
    }
}

/// The objects that a frame removes, in the order in which they are flagged.
pub open spec fn removals(w: Watch, frame_idx: i32) -> Seq<i32> {
    let pairs = pairs_in_order(w.overlap_pairs.dom());
    duplicate_removals(w, unmatched_removals(w, frame_idx), pairs, pairs.len(), frame_idx)
}

/// Every budget is within its bounds.
pub open spec fn budgets_bounded(m: Map<i32, i32>) -> bool {
    forall|k: i32| m.contains_key(k) ==> MIN_KEEP_ALIVE <= #[trigger] m[k] <= MAX_KEEP_ALIVE
}

impl Hotstart {
    /// Every keep-alive budget is within its bounds.
    pub open spec fn wf(&self) -> bool {
        budgets_bounded(self.keep_alive@)
    }

    pub fn new() -> (r: Hotstart)
        ensures
            r.wf(),
            r@ == (Watch {
                first_frame: Map::empty(),
                unmatched_frames: Map::empty(),
                keep_alive: Map::empty(),
                overlap_pairs: Map::empty(),
                removed: Set::empty(),
            }),
    {
        let r = Hotstart {
            first_frame: BTreeMap::new(),
            unmatched_frames: BTreeMap::new(),
            keep_alive: BTreeMap::new(),
            overlap_pairs: BTreeMap::new(),
            removed: BTreeSet::new(),
        };
        assert(r@.unmatched_frames =~= Map::empty());
        assert(r@.overlap_pairs =~= Map::empty());
        r
    }

    /// The frame on which an object first appeared, zero where it is not on record.
    fn first_seen(&self, id: i32) -> (r: i32)
        ensures
            r == lookup(self.first_frame@, id, 0),
    {
        match self.first_frame.get(&id) {
            Some(f) => *f,
            None => 0,
        }
    }

    fn budget(&self, id: i32) -> (r: i32)
        ensures
            r == lookup(self.keep_alive@, id, INIT_KEEP_ALIVE),
    {
        match self.keep_alive.get(&id) {
            Some(k) => *k,
            None => INIT_KEEP_ALIVE,
        }
    }

    fn register(&mut self, new_obj_ids: &[i32], frame_idx: i32)
        requires
            old(self).wf(),
        ensures
            final(self).wf(),
            final(self)@ == (Watch {
                first_frame: noted(old(self)@.first_frame, new_obj_ids@, frame_idx),
                keep_alive: started(old(self)@.keep_alive, new_obj_ids@),
                ..old(self)@
            }),
    {
        let ghost before = self@;
        let mut i: usize = 0;
        assert(new_obj_ids@.take(0) =~= Seq::empty());
        while i < new_obj_ids.len()
            invariant
                i <= new_obj_ids@.len(),
                self.wf(),
                self@ == (Watch {
                    first_frame: noted(before.first_frame, new_obj_ids@.take(i as int), frame_idx),
                    keep_alive: started(before.keep_alive, new_obj_ids@.take(i as int)),
                    ..before
                }),
            decreases new_obj_ids@.len() - i,
        {
            let id: i32 = new_obj_ids[i];
            assert(new_obj_ids@.take(i + 1).drop_last() =~= new_obj_ids@.take(i as int));
            if !self.first_frame.contains_key(&id) {
                self.first_frame.insert(id, frame_idx);
            }
            self.keep_alive.insert(id, INIT_KEEP_ALIVE);
            i = i + 1;
        }
        assert(new_obj_ids@.take(new_obj_ids@.len() as int) =~= new_obj_ids@);
    }

    fn raise(&mut self, ids: &[i32])
        requires
            old(self).wf(),
        ensures
            final(self).wf(),
            final(self)@ == (Watch {
                keep_alive: raised(old(self)@.keep_alive, ids@),
                ..old(self)@
            }),
    {
        let ghost before = self@;
        let mut i: usize = 0;
        assert(ids@.take(0) =~= Seq::empty());
        while i < ids.len()
            invariant
                i <= ids@.len(),
                self.wf(),
                self@ == (Watch {
                    keep_alive: raised(before.keep_alive, ids@.take(i as int)),
                    ..before
                }),
            decreases ids@.len() - i,
        {
            let id: i32 = ids[i];
            assert(ids@.take(i + 1).drop_last() =~= ids@.take(i as int));
            let k: i32 = self.budget(id);
            assert(MIN_KEEP_ALIVE <= k <= MAX_KEEP_ALIVE);
            let up: i32 = if k + 1 < MAX_KEEP_ALIVE {
                k + 1
            } else {
                MAX_KEEP_ALIVE
            };
            self.keep_alive.insert(id, up);
            i = i + 1;
        }
        assert(ids@.take(ids@.len() as int) =~= ids@);
    }

    fn miss(&mut self, ids: &[i32], frame_idx: i32)
        requires
            old(self).wf(),
        ensures
            final(self).wf(),
            final(self)@ == (Watch {
                keep_alive: lowered(old(self)@.keep_alive, ids@),
                unmatched_frames: logged(old(self)@.unmatched_frames, ids@, frame_idx),
                ..old(self)@
            }),
    {
        let ghost before = self@;
        let mut i: usize = 0;
        assert(ids@.take(0) =~= Seq::empty());
        while i < ids.len()
            invariant
                i <= ids@.len(),
                self.wf(),
                self@ == (Watch {
                    keep_alive: lowered(before.keep_alive, ids@.take(i as int)),
                    unmatched_frames: logged(
                        before.unmatched_frames,
                        ids@.take(i as int),
                        frame_idx,
                    ),
                    ..before
                }),
            decreases ids@.len() - i,
        {
            let id: i32 = ids[i];
            assert(ids@.take(i + 1).drop_last() =~= ids@.take(i as int));
            let ghost prior = self@;
            let ghost held = self.unmatched_frames@;
            let mut log: Vec<i32> = match self.unmatched_frames.remove(&id) {
                Some(v) => v,
                None => Vec::new(),
            };
            assert(log@ == log_of(prior.unmatched_frames, id));
            log.push(frame_idx);
            self.unmatched_frames.insert(id, log);
            assert(logs(self.unmatched_frames@) =~= prior.unmatched_frames.insert(id, log@));
            let k: i32 = self.budget(id);
            assert(MIN_KEEP_ALIVE <= k <= MAX_KEEP_ALIVE);
            let down: i32 = if k - 1 > MIN_KEEP_ALIVE {
                k - 1
            } else {
                MIN_KEEP_ALIVE
            };
            self.keep_alive.insert(id, down);
            i = i + 1;
        }
        assert(ids@.take(ids@.len() as int) =~= ids@);
    }

    fn eldest_of(&self, ids: &[i32]) -> (r: i32)
        requires
            ids@.len() > 0,
        ensures
            r == eldest(ids@, self.first_frame@, ids@.len()),
    {
        let mut best: i32 = ids[0];
        let mut i: usize = 1;
        while i < ids.len()
            invariant
                1 <= i <= ids@.len(),
                best == eldest(ids@, self.first_frame@, i as nat),
            decreases ids@.len() - i,
        {
            if self.first_seen(ids[i]) < self.first_seen(best) {
                best = ids[i];
            }
            i = i + 1;
        }
        best
    }

    /// Log the shared detections of one list of touched objects.
    fn share(&mut self, ids: &[i32], frame_idx: i32)
        requires
            old(self).wf(),
        ensures
            final(self).wf(),
            final(self)@ == (Watch {
                overlap_pairs: logged(
                    old(self)@.overlap_pairs,
                    sharing(ids@, old(self)@.first_frame),
                    frame_idx,
                ),
                ..old(self)@
            }),
    {
        if ids.len() < 2 {
            return ;
        }
        let ghost before = self@;
        let first: i32 = self.eldest_of(ids);
        let ghost p = other_than(ids@, first);
        let ghost f = paired_with(ids@, first);
        let mut i: usize = 0;
        while i < ids.len()
            invariant
                i <= ids@.len(),
                self.wf(),
                p == other_than(ids@, first),
                f == paired_with(ids@, first),
                self@ == (Watch {
                    overlap_pairs: logged(before.overlap_pairs, picked(i as nat, p, f), frame_idx),
                    ..before
                }),
            decreases ids@.len() - i,
        {
            let id: i32 = ids[i];
            if id != first {
                let ghost prior = self@;
                let key: (i32, i32) = (first, id);
                let mut log: Vec<i32> = match self.overlap_pairs.remove(&key) {
                    Some(v) => v,
                    None => Vec::new(),
                };
                assert(log@ == log_of(prior.overlap_pairs, key));
                log.push(frame_idx);
                self.overlap_pairs.insert(key, log);
                proof {
                    assert(logs(self.overlap_pairs@) =~= prior.overlap_pairs.insert(key, log@));
                    assert(picked((i + 1) as nat, p, f) == picked(i as nat, p, f).push(key));
                    assert(picked((i + 1) as nat, p, f).drop_last() =~= picked(i as nat, p, f));
                }
            }
            i = i + 1;
        }
    }

    /// Follow one frame of associations; returns the objects to remove.
    pub fn process_hotstart(&mut self, frame_idx: i32, a: &Assoc, new_obj_ids: &[i32]) -> (r: Vec<
        i32,
    >)
        requires
            old(self).wf(),
            0 <= frame_idx,
        ensures
            final(self).wf(),
            ({
                let seen = observed(
                    old(self)@,
                    frame_idx,
                    rows(a.det_to_matched_trk@),
                    a.unmatched_trk@,
                    new_obj_ids@,
                );
                &&& r@ == removals(seen, frame_idx)
                &&& final(self)@ == (Watch { removed: seen.removed.union(r@.to_set()), ..seen })
            }),
    {
        let ghost before = self@;
        let ghost touched = rows(a.det_to_matched_trk@);
        let ghost first_frame = noted(before.first_frame, new_obj_ids@, frame_idx);
        let hotstart_diff: i32 = frame_idx - HOTSTART_DELAY;
        self.register(new_obj_ids, frame_idx);
        let mut matched: BTreeSet<i32> = BTreeSet::new();
        let mut d: usize = 0;
        assert(touched.take(0) =~= Seq::empty());
        while d < a.det_to_matched_trk.len()
            invariant
                d <= a.det_to_matched_trk@.len(),
                touched == rows(a.det_to_matched_trk@),
                matched@ == mentioned(touched.take(d as int)),
            decreases a.det_to_matched_trk@.len() - d,
        {
            let row: &Vec<i32> = &a.det_to_matched_trk[d];
            let ghost so_far = matched@;
            let mut t: usize = 0;
            assert(so_far.union(row@.take(0).to_set()) =~= so_far);
            while t < row.len()
                invariant
                    t <= row@.len(),
                    matched@ == so_far.union(row@.take(t as int).to_set()),
                decreases row@.len() - t,
            {
                proof {
                    let (x, y) = (row@.take(t as int), row@.take(t + 1));
                    assert(y =~= x.push(row@[t as int]));
                    assert(so_far.union(x.to_set()).insert(row@[t as int]) =~= so_far.union(
                        y.to_set(),
                    )) by {
                        assert forall|v: i32| y.contains(v) <==> x.contains(v) || v
                            == row@[t as int] by {
                            if x.contains(v) {
                                let k = choose|k: int| 0 <= k < x.len() && x[k] == v;
                                assert(y[k] == v);
                            }
                            if v == row@[t as int] {
                                assert(y[t as int] == v);
                            }
                        }
                    }
                }
                matched.insert(row[t]);
                t = t + 1;
            }
            proof {
                assert(row@.take(row@.len() as int) =~= row@);
                assert(touched.take(d + 1).drop_last() =~= touched.take(d as int));
                assert(touched.take(d + 1).last() == row@);
            }
            d = d + 1;
        }
        assert(touched.take(touched.len() as int) =~= touched);
        let alive: Vec<i32> = ordered_members(&matched);
        self.raise(&alive);
        self.miss(&a.unmatched_trk, frame_idx);

        let ghost middle = self@;
        let mut e: usize = 0;
        while e < a.det_to_matched_trk.len()
            invariant
                e <= a.det_to_matched_trk@.len(),
                touched == rows(a.det_to_matched_trk@),
                self.wf(),
                middle.first_frame == first_frame,
                self@ == (Watch {
                    overlap_pairs: shared(
                        middle.overlap_pairs,
                        touched.take(e as int),
                        first_frame,
                        frame_idx,
                    ),
                    ..middle
                }),
            decreases a.det_to_matched_trk@.len() - e,
        {
            proof {
                assert(touched.take(e + 1).drop_last() =~= touched.take(e as int));
                assert(touched.take(e + 1).last() == a.det_to_matched_trk@[e as int]@);
            }
            self.share(&a.det_to_matched_trk[e], frame_idx);
            e = e + 1;
        }
        let ghost seen = observed(
            before,
            frame_idx,
            touched,
            a.unmatched_trk@,
            new_obj_ids@,
        );
        assert(self@ == seen);

        let mut newly_removed: Vec<i32> = Vec::new();
        let keys: Vec<i32> = ordered_keys(&self.unmatched_frames);
        assert(self.unmatched_frames@.dom() =~= seen.unmatched_frames.dom());
        let ghost p = often_unmatched(seen, keys@, frame_idx);
        let ghost f = listed(keys@);
        let mut i: usize = 0;
        while i < keys.len()
            invariant
                i <= keys@.len(),
                self@ == seen,
                hotstart_diff == frame_idx - HOTSTART_DELAY,
                keys@.to_set() == self.unmatched_frames@.dom(),
                p == often_unmatched(seen, keys@, frame_idx),
                f == listed(keys@),
                newly_removed@ == picked(i as nat, p, f),
            decreases keys@.len() - i,
        {
            let id: i32 = keys[i];
            assert(keys@.to_set().contains(id));
            let count: usize = match self.unmatched_frames.get(&id) {
                Some(v) => v.len(),
                None => 0,
            };
            assert(count == seen.unmatched_frames[id].len());
            if !self.removed.contains(&id) && count >= HOTSTART_UNMATCH && self.first_seen(id)
                > hotstart_diff {
                newly_removed.push(id);
            }
            i = i + 1;
        }
        let pairs: Vec<(i32, i32)> = ordered_pairs(&self.overlap_pairs);
        assert(self.overlap_pairs@.dom() =~= seen.overlap_pairs.dom());
        let ghost flagged = newly_removed@;
        let mut q: usize = 0;
        while q < pairs.len()
            invariant
                q <= pairs@.len(),
                self@ == seen,
                hotstart_diff == frame_idx - HOTSTART_DELAY,
                pairs@.to_set() == self.overlap_pairs@.dom(),
                newly_removed@ == duplicate_removals(seen, flagged, pairs@, q as nat, frame_idx),
            decreases pairs@.len() - q,
        {
            let pair: (i32, i32) = pairs[q];
            assert(pairs@.to_set().contains(pair));
            let id: i32 = pair.1;
            let count: usize = match self.overlap_pairs.get(&pair) {
                Some(v) => v.len(),
                None => 0,
            };
            assert(count == seen.overlap_pairs[pair].len());
            if !self.removed.contains(&id) && !contains_id(&newly_removed, id) && self.first_seen(
                id,
            ) > hotstart_diff && count >= HOTSTART_DUP {
                newly_removed.push(id);
            }
            q = q + 1;
        }
        let mut s: usize = 0;
        assert(seen.removed.union(newly_removed@.take(0).to_set()) =~= seen.removed);
        while s < newly_removed.len()
            invariant
                s <= newly_removed@.len(),
                self.wf(),
                self@ == (Watch {
                    removed: seen.removed.union(newly_removed@.take(s as int).to_set()),
                    ..seen
                }),
            decreases newly_removed@.len() - s,
        {
            proof {
                let (x, y) = (newly_removed@.take(s as int), newly_removed@.take(s + 1));
                assert(y =~= x.push(newly_removed@[s as int]));
                assert(seen.removed.union(x.to_set()).insert(newly_removed@[s as int])
                    =~= seen.removed.union(y.to_set())) by {
                    assert forall|v: i32| y.contains(v) <==> x.contains(v) || v
                        == newly_removed@[s as int] by {
                        if x.contains(v) {
                            let k = choose|k: int| 0 <= k < x.len() && x[k] == v;
                            assert(y[k] == v);
                        }
                        if v == newly_removed@[s as int] {
                            assert(y[s as int] == v);
                        }
                    }
                }
            }
            self.removed.insert(newly_removed[s]);
            s = s + 1;
        }
        assert(newly_removed@.take(newly_removed@.len() as int) =~= newly_removed@);
        newly_removed
    }
}

/// Whether an id is in a list.
pub fn contains_id(ids: &[i32], id: i32) -> (r: bool)
    ensures
        r == ids@.contains(id),
{
    let mut i: usize = 0;
    while i < ids.len()
        invariant
            i <= ids@.len(),
            forall|k: int| 0 <= k < i ==> ids@[k] != id,
        decreases ids@.len() - i,
    {
        if ids[i] == id {
            return true;
        }
        i = i + 1;
    }
    false
}

proof fn duplicate_removals_sound(
    w: Watch,
    flagged: Seq<i32>,
    pairs: Seq<(i32, i32)>,
    n: nat,
    frame_idx: i32,
)
    requires
        flagged.no_duplicates(),
        forall|k: int|
            0 <= k < flagged.len() ==> !w.removed.contains(#[trigger] flagged[k]) && young(
                w.first_frame,
                flagged[k],
                frame_idx,
            ),
    ensures
        ({
            let r = duplicate_removals(w, flagged, pairs, n, frame_idx);
            &&& r.no_duplicates()
            &&& forall|k: int|
                0 <= k < r.len() ==> !w.removed.contains(#[trigger] r[k]) && young(
                    w.first_frame,
                    r[k],
                    frame_idx,
                )
        }),
    decreases n,
{
    if n > 0 {
        duplicate_removals_sound(w, flagged, pairs, (n - 1) as nat, frame_idx);
        let before = duplicate_removals(w, flagged, pairs, (n - 1) as nat, frame_idx);
        let r = duplicate_removals(w, flagged, pairs, n, frame_idx);
        assert forall|k: int| 0 <= k < r.len() implies !w.removed.contains(#[trigger] r[k])
            && young(w.first_frame, r[k], frame_idx) by {
            if k < before.len() {
                assert(r[k] == before[k]);
            }
        }
        assert(r.no_duplicates());
    }
}

proof fn picked_keys_are_distinct(keys: Seq<i32>, p: spec_fn(int) -> bool, n: nat)
    requires
        ascending(keys),
        n <= keys.len(),
    ensures
        picked(n, p, listed(keys)).no_duplicates(),
    decreases n,
{
    if n > 0 {
        let m = (n - 1) as nat;
        picked_keys_are_distinct(keys, p, m);
        let rest = picked(m, p, listed(keys));
        if p(n - 1) {
            assert forall|k: int| 0 <= k < rest.len() implies rest[k] != keys[n - 1] by {
                let i = picked_sound(m, p, listed(keys), k);
                assert(keys[i] < keys[n - 1]);
            }
        }
    }
}

/// Only young objects are ever removed, no object is removed twice, and an object that was
/// removed before is not reported again.
pub proof fn removals_are_young_and_fresh(w: Watch, frame_idx: i32)
    requires
        w.unmatched_frames.dom().finite(),
    ensures
        removals(w, frame_idx).no_duplicates(),
        forall|k: int|
            0 <= k < removals(w, frame_idx).len() ==> !w.removed.contains(
                #[trigger] removals(w, frame_idx)[k],
            ) && young(w.first_frame, removals(w, frame_idx)[k], frame_idx),
{
    let keys = in_order(w.unmatched_frames.dom());
    in_order_of_finite(w.unmatched_frames.dom());
    let p = often_unmatched(w, keys, frame_idx);
    let flagged = unmatched_removals(w, frame_idx);
    picked_keys_are_distinct(keys, p, keys.len());
    assert forall|k: int| 0 <= k < flagged.len() implies !w.removed.contains(
        #[trigger] flagged[k],
    ) && young(w.first_frame, flagged[k], frame_idx) by {
        let i = picked_sound(keys.len(), p, listed(keys), k);
    }
    let pairs = pairs_in_order(w.overlap_pairs.dom());
    duplicate_removals_sound(w, flagged, pairs, pairs.len(), frame_idx);
}

/// The object has gone unmatched on too many frames, or shared too many detections with one older
/// object.
pub open spec fn overdue(w: Watch, id: i32) -> bool {
    ||| w.unmatched_frames.contains_key(id) && w.unmatched_frames[id].len() >= HOTSTART_UNMATCH
    ||| exists|elder: i32| #[trigger]
        w.overlap_pairs.contains_key((elder, id)) && w.overlap_pairs[(elder, id)].len()
            >= HOTSTART_DUP
}

proof fn duplicates_are_found(
    w: Watch,
    flagged: Seq<i32>,
    pairs: Seq<(i32, i32)>,
    n: nat,
    frame_idx: i32,
    id: i32,
)
    requires
        n <= pairs.len(),
        !w.removed.contains(id),
        young(w.first_frame, id, frame_idx),
    ensures
        duplicate_removals(w, flagged, pairs, n, frame_idx).contains(id) <==> flagged.contains(id)
            || exists|t: int|
            0 <= t < n && (#[trigger] pairs[t]).1 == id && w.overlap_pairs[pairs[t]].len()
                >= HOTSTART_DUP,
    decreases n,
{
    if n > 0 {
        let m = (n - 1) as nat;
        duplicates_are_found(w, flagged, pairs, m, frame_idx, id);
        let before = duplicate_removals(w, flagged, pairs, m, frame_idx);
        let r = duplicate_removals(w, flagged, pairs, n, frame_idx);
        if before.contains(id) {
            let k = choose|k: int| 0 <= k < before.len() && before[k] == id;
            assert(r[k] == id);
        }
        if r.contains(id) && !before.contains(id) {
            let k = choose|k: int| 0 <= k < r.len() && r[k] == id;
            if k < before.len() {
                assert(before[k] == id);
            }
            assert(pairs[m as int].1 == id);
        }
        if pairs[m as int].1 == id && w.overlap_pairs[pairs[m as int]].len() >= HOTSTART_DUP
            && !before.contains(id) {
            assert(r[before.len() as int] == id);
        }
    }
}

/// A frame removes exactly the young objects, not removed before, that have gone unmatched or
/// shared a detection too often.
pub proof fn overdue_objects_are_removed(w: Watch, frame_idx: i32, id: i32)
    requires
        w.unmatched_frames.dom().finite(),
        w.overlap_pairs.dom().finite(),
    ensures
        removals(w, frame_idx).contains(id) <==> !w.removed.contains(id) && young(
            w.first_frame,
            id,
            frame_idx,
        ) && overdue(w, id),
{
    removals_are_young_and_fresh(w, frame_idx);
    if removals(w, frame_idx).contains(id) {
        let all = removals(w, frame_idx);
        let k = choose|k: int| 0 <= k < all.len() && all[k] == id;
        assert(!w.removed.contains(all[k]));
    }
    if !w.removed.contains(id) && young(w.first_frame, id, frame_idx) {
        let keys = in_order(w.unmatched_frames.dom());
        in_order_of_finite(w.unmatched_frames.dom());
        let pairs = pairs_in_order(w.overlap_pairs.dom());
        pairs_in_order_of_finite(w.overlap_pairs.dom());
        let p = often_unmatched(w, keys, frame_idx);
        let flagged = unmatched_removals(w, frame_idx);
        if flagged.contains(id) {
            let k = choose|k: int| 0 <= k < flagged.len() && flagged[k] == id;
            let i = picked_sound(keys.len(), p, listed(keys), k);
            assert(keys.to_set().contains(keys[i]));
        }
        if w.unmatched_frames.contains_key(id) && w.unmatched_frames[id].len()
            >= HOTSTART_UNMATCH {
            assert(keys.to_set().contains(id));
            let i = choose|i: int| 0 <= i < keys.len() && keys[i] == id;
            assert(p(i));
            picked_complete(keys.len(), p, listed(keys), i);
            assert(listed(keys)(i) == id);
        }
        duplicates_are_found(w, flagged, pairs, pairs.len(), frame_idx, id);
        if exists|t: int|
            0 <= t < pairs.len() && (#[trigger] pairs[t]).1 == id && w.overlap_pairs[pairs[t]].len()
                >= HOTSTART_DUP {
            let t = choose|t: int|
                0 <= t < pairs.len() && (#[trigger] pairs[t]).1 == id
                    && w.overlap_pairs[pairs[t]].len() >= HOTSTART_DUP;
            assert(pairs.to_set().contains(pairs[t]));
            assert(w.overlap_pairs.contains_key((pairs[t].0, id)));
        }
        if exists|elder: i32| #[trigger]
            w.overlap_pairs.contains_key((elder, id)) && w.overlap_pairs[(elder, id)].len()
                >= HOTSTART_DUP {
            let elder = choose|elder: i32| #[trigger]
                w.overlap_pairs.contains_key((elder, id)) && w.overlap_pairs[(elder, id)].len()
                    >= HOTSTART_DUP;
            assert(pairs.to_set().contains((elder, id)));
            let t = choose|t: int| 0 <= t < pairs.len() && pairs[t] == (elder, id);
            assert(pairs[t].1 == id);
        }
    }
}

/// An object keeps the frame on which it was first noted.
pub proof fn first_frame_is_kept(m: Map<i32, i32>, ids: Seq<i32>, frame_idx: i32, id: i32)
    requires
        m.contains_key(id),
    ensures
        noted(m, ids, frame_idx).contains_key(id),
        noted(m, ids, frame_idx)[id] == m[id],
    decreases ids.len(),
{
    if ids.len() > 0 {
        first_frame_is_kept(m, ids.drop_last(), frame_idx, id);
    }
}

/// A new object is first seen on this frame; an object that was known keeps its first frame, and
/// nothing else is entered.
pub proof fn new_objects_are_noted(m: Map<i32, i32>, ids: Seq<i32>, frame_idx: i32, id: i32)
    ensures
        ({
            let after = noted(m, ids, frame_idx);
            &&& after.contains_key(id) <==> m.contains_key(id) || ids.contains(id)
            &&& m.contains_key(id) ==> after[id] == m[id]
            &&& ids.contains(id) && !m.contains_key(id) ==> after[id] == frame_idx
        }),
    decreases ids.len(),
{
    if ids.len() > 0 {
        let rest = ids.drop_last();
        new_objects_are_noted(m, rest, frame_idx, id);
        new_objects_are_noted(m, rest, frame_idx, ids.last());
        if ids.contains(id) && id != ids.last() {
            let k = ids.index_of(id);
            assert(rest[k] == id);
        }
        if rest.contains(id) {
            assert(ids[rest.index_of(id)] == id);
        }
    }
}

proof fn started_at(m: Map<i32, i32>, ids: Seq<i32>, id: i32)
    ensures
        started(m, ids).contains_key(id) == (m.contains_key(id) || ids.contains(id)),
        ids.contains(id) ==> started(m, ids)[id] == 30,
        !ids.contains(id) && m.contains_key(id) ==> started(m, ids)[id] == m[id],
    decreases ids.len(),
{
    if ids.len() > 0 {
        let rest = ids.drop_last();
        started_at(m, rest, id);
        if ids.contains(id) && id != ids.last() {
            assert(rest[ids.index_of(id)] == id);
        }
        if rest.contains(id) {
            assert(ids[rest.index_of(id)] == id);
        }
    }
}

proof fn raised_at(m: Map<i32, i32>, ids: Seq<i32>, id: i32)
    requires
        ids.no_duplicates(),
        m.contains_key(id) ==> -1 <= m[id] <= 30,
    ensures
        ({
            let before = if m.contains_key(id) {
                m[id] as int
            } else {
                30
            };
            let after = raised(m, ids);
            &&& after.contains_key(id) == (m.contains_key(id) || ids.contains(id))
            &&& ids.contains(id) ==> after[id] == if before < 30 {
                before + 1
            } else {
                30
            }
            &&& !ids.contains(id) && m.contains_key(id) ==> after[id] == m[id]
        }),
    decreases ids.len(),
{
    if ids.len() > 0 {
        let rest = ids.drop_last();
        raised_at(m, rest, id);
        if ids.contains(id) && id != ids.last() {
            assert(rest[ids.index_of(id)] == id);
        }
        if rest.contains(id) {
            assert(ids[rest.index_of(id)] == id);
        }
    }
}

proof fn lowered_at(m: Map<i32, i32>, ids: Seq<i32>, id: i32)
    requires
        ids.no_duplicates(),
        m.contains_key(id) ==> -1 <= m[id] <= 30,
    ensures
        ({
            let before = if m.contains_key(id) {
                m[id] as int
            } else {
                30
            };
            let after = lowered(m, ids);
            &&& after.contains_key(id) == (m.contains_key(id) || ids.contains(id))
            &&& ids.contains(id) ==> after[id] == if before > -1 {
                before - 1
            } else {
                -1
            }
            &&& !ids.contains(id) && m.contains_key(id) ==> after[id] == m[id]
        }),
    decreases ids.len(),
{
    if ids.len() > 0 {
        let rest = ids.drop_last();
        lowered_at(m, rest, id);
        if ids.contains(id) && id != ids.last() {
            assert(rest[ids.index_of(id)] == id);
        }
        if rest.contains(id) {
            assert(ids[rest.index_of(id)] == id);
        }
    }
}

proof fn mentioned_members(touched: Seq<Seq<i32>>, id: i32)
    ensures
        mentioned(touched).finite(),
        mentioned(touched).contains(id) <==> exists|i: int|
            0 <= i < touched.len() && (#[trigger] touched[i]).contains(id),
    decreases touched.len(),
{
    if touched.len() > 0 {
        let rest = touched.drop_last();
        mentioned_members(rest, id);
        if exists|i: int| 0 <= i < rest.len() && (#[trigger] rest[i]).contains(id) {
            let i = choose|i: int| 0 <= i < rest.len() && (#[trigger] rest[i]).contains(id);
            assert(touched[i].contains(id));
        }
        if touched.last().contains(id) {
            assert(touched[touched.len() - 1].contains(id));
        }
        if exists|i: int| 0 <= i < touched.len() && (#[trigger] touched[i]).contains(id) {
            let i = choose|i: int| 0 <= i < touched.len() && (#[trigger] touched[i]).contains(id);
            if i < rest.len() {
                assert(rest[i].contains(id));
            }
        }
    }
}

/// The frames an object may go on unseen: thirty for a new object, one more for each frame on which
/// a detection touches it, up to thirty, and one less, down to minus one, for each on which none
/// confirms it. No other object's count changes.
pub proof fn budgets_follow_the_frame(
    w: Watch,
    frame_idx: i32,
    touched: Seq<Seq<i32>>,
    unmatched: Seq<i32>,
    new_obj_ids: Seq<i32>,
    id: i32,
)
    requires
        budgets_bounded(w.keep_alive),
        unmatched.no_duplicates(),
    ensures
        ({
            let after = observed(w, frame_idx, touched, unmatched, new_obj_ids).keep_alive;
            let seen = exists|i: int|
                0 <= i < touched.len() && (#[trigger] touched[i]).contains(id);
            let start = if w.keep_alive.contains_key(id) && !new_obj_ids.contains(id) {
                w.keep_alive[id] as int
            } else {
                30
            };
            let raised = if seen && start < 30 {
                start + 1
            } else {
                start
            };
            let lowered = if unmatched.contains(id) && raised > -1 {
                raised - 1
            } else {
                raised
            };
            &&& after.contains_key(id) <==> w.keep_alive.contains_key(id) || new_obj_ids.contains(
                id,
            ) || seen || unmatched.contains(id)
            &&& after.contains_key(id) ==> after[id] == lowered
            &&& after.contains_key(id) ==> -1 <= after[id] <= 30
        }),
{
    mentioned_members(touched, id);
    let ids = in_order(mentioned(touched));
    in_order_of_finite(mentioned(touched));
    assert(ids.no_duplicates());
    assert(ids.to_set().contains(id) <==> mentioned(touched).contains(id));
    let a = started(w.keep_alive, new_obj_ids);
    let b = raised(a, ids);
    started_at(w.keep_alive, new_obj_ids, id);
    raised_at(a, ids, id);
    lowered_at(b, unmatched, id);
}

proof fn logged_at<K>(m: Map<K, Seq<i32>>, keys: Seq<K>, frame_idx: i32, k: K)
    requires
        keys.no_duplicates(),
    ensures
        log_of(logged(m, keys, frame_idx), k) == if keys.contains(k) {
            log_of(m, k).push(frame_idx)
        } else {
            log_of(m, k)
        },
        logged(m, keys, frame_idx).contains_key(k) == (m.contains_key(k) || keys.contains(k)),
    decreases keys.len(),
{
    if keys.len() > 0 {
        let rest = keys.drop_last();
        logged_at(m, rest, frame_idx, k);
        if keys.contains(k) && k != keys.last() {
            assert(rest[keys.index_of(k)] == k);
        }
        if rest.contains(k) {
            assert(keys[rest.index_of(k)] == k);
        }
    }
}

/// Each unmatched object gets this frame in its log, behind what was there, and no other object
/// does.
pub proof fn unmatched_frames_are_logged(
    w: Watch,
    frame_idx: i32,
    touched: Seq<Seq<i32>>,
    unmatched: Seq<i32>,
    new_obj_ids: Seq<i32>,
    id: i32,
)
    requires
        unmatched.no_duplicates(),
    ensures
        ({
            let after = observed(w, frame_idx, touched, unmatched, new_obj_ids).unmatched_frames;
            &&& after.contains_key(id) <==> w.unmatched_frames.contains_key(id)
                || unmatched.contains(id)
            &&& unmatched.contains(id) && w.unmatched_frames.contains_key(id) ==> after[id]
                == w.unmatched_frames[id].push(frame_idx)
            &&& unmatched.contains(id) && !w.unmatched_frames.contains_key(id) ==> after[id]
                == seq![frame_idx]
            &&& !unmatched.contains(id) && w.unmatched_frames.contains_key(id) ==> after[id]
                == w.unmatched_frames[id]
        }),
{
    logged_at(w.unmatched_frames, unmatched, frame_idx, id);
    assert(Seq::<i32>::empty().push(frame_idx) =~= seq![frame_idx]);
}

/// The eldest of some objects is one of them, and none of them was seen earlier; of those first
/// seen together it is the one listed first.
pub proof fn the_eldest_was_seen_first(ids: Seq<i32>, first_frame: Map<i32, i32>, n: nat) -> (k: int)
    requires
        1 <= n <= ids.len(),
    ensures
        0 <= k < n,
        ids[k] == eldest(ids, first_frame, n),
        forall|t: int|
            0 <= t < n ==> lookup(first_frame, ids[k], 0) <= lookup(
                first_frame,
                #[trigger] ids[t],
                0,
            ),
        forall|t: int|
            0 <= t < k ==> lookup(first_frame, ids[k], 0) < lookup(first_frame, #[trigger] ids[t], 0),
    decreases n,
{
    if n == 1 {
        0
    } else {
        let k = the_eldest_was_seen_first(ids, first_frame, (n - 1) as nat);
        if lookup(first_frame, ids[n - 1], 0) < lookup(first_frame, ids[k], 0) {
            n - 1
        } else {
            k
        }
    }
}

proof fn sharing_pairs(ids: Seq<i32>, first_frame: Map<i32, i32>, elder: i32, id: i32)
    requires
        ids.no_duplicates(),
    ensures
        sharing(ids, first_frame).no_duplicates(),
        sharing(ids, first_frame).contains((elder, id)) <==> ids.len() >= 2 && elder == eldest(
            ids,
            first_frame,
            ids.len(),
        ) && ids.contains(id) && id != elder,
{
    if ids.len() >= 2 {
        let e = eldest(ids, first_frame, ids.len());
        let (p, f) = (other_than(ids, e), paired_with(ids, e));
        let s = sharing(ids, first_frame);
        pairs_are_distinct(ids, e, ids.len());
        if ids.contains(id) && id != e {
            picked_complete(ids.len(), p, f, ids.index_of(id));
        }
        if s.contains((elder, id)) {
            let k = choose|k: int| 0 <= k < s.len() && s[k] == (elder, id);
            let t = picked_sound(ids.len(), p, f, k);
            assert(f(t) == (e, ids[t]));
        }
    }
}

proof fn pairs_are_distinct(ids: Seq<i32>, e: i32, n: nat)
    requires
        ids.no_duplicates(),
        n <= ids.len(),
    ensures
        picked(n, other_than(ids, e), paired_with(ids, e)).no_duplicates(),
    decreases n,
{
    if n > 0 {
        let (p, f) = (other_than(ids, e), paired_with(ids, e));
        pairs_are_distinct(ids, e, (n - 1) as nat);
        let rest = picked((n - 1) as nat, p, f);
        assert forall|k: int| 0 <= k < rest.len() implies #[trigger] rest[k] != f(n - 1) by {
            let t = picked_sound((n - 1) as nat, p, f, k);
            assert(f(t) == (e, ids[t]));
            assert(f(n - 1) == (e, ids[n - 1]));
        }
    }
}

/// Where one detection touches several objects, each but the eldest is logged as sharing with the
/// eldest, once for the detection; no other pair is.
pub proof fn shared_detections_are_logged(
    m: Map<(i32, i32), Seq<i32>>,
    touched: Seq<Seq<i32>>,
    first_frame: Map<i32, i32>,
    frame_idx: i32,
    elder: i32,
    id: i32,
)
    requires
        forall|i: int| 0 <= i < touched.len() ==> (#[trigger] touched[i]).no_duplicates(),
    ensures
        log_of(shared(m, touched, first_frame, frame_idx), (elder, id)).len() == log_of(
            m,
            (elder, id),
        ).len() + tally(
            Seq::new(
                touched.len(),
                |i: int| elder != id && touched[i].contains(id) && touched[i].contains(elder)
                    && elder == eldest(touched[i], first_frame, touched[i].len()),
            ),
        ),
    decreases touched.len(),
{
    let marks = Seq::new(
        touched.len(),
        |i: int| elder != id && touched[i].contains(id) && touched[i].contains(elder) && elder
            == eldest(touched[i], first_frame, touched[i].len()),
    );
    if touched.len() > 0 {
        let rest = touched.drop_last();
        let last = touched.last();
        assert(touched[touched.len() - 1].no_duplicates());
        assert forall|i: int| 0 <= i < rest.len() implies (#[trigger] rest[i]).no_duplicates() by {
            assert(touched[i].no_duplicates());
        }
        shared_detections_are_logged(m, rest, first_frame, frame_idx, elder, id);
        assert(marks.drop_last() =~= Seq::new(
            rest.len(),
            |i: int| elder != id && rest[i].contains(id) && rest[i].contains(elder) && elder
                == eldest(rest[i], first_frame, rest[i].len()),
        ));
        sharing_pairs(last, first_frame, elder, id);
        logged_at(
            shared(m, rest, first_frame, frame_idx),
            sharing(last, first_frame),
            frame_idx,
            (elder, id),
        );
        if last.len() >= 1 {
            let k = the_eldest_was_seen_first(last, first_frame, last.len());
            assert(last.contains(eldest(last, first_frame, last.len())));
        }
        if last.contains(id) && last.contains(elder) && elder != id {
            assert(last.index_of(id) != last.index_of(elder));
            assert(last.len() >= 2);
        }
    }
}

/// An object is removed exactly where it is not removed yet, was first seen less than fifteen frames
/// ago, and has been unmatched on eight frames or more or has shared detections with one elder
/// object eight times or more.
pub proof fn removals_need_eight_frames(w: Watch, frame_idx: i32, id: i32)
    requires
        w.unmatched_frames.dom().finite(),
        w.overlap_pairs.dom().finite(),
    ensures
        removals(w, frame_idx).contains(id) <==> {
            &&& !w.removed.contains(id)
            &&& (if w.first_frame.contains_key(id) {
                frame_idx - w.first_frame[id] < 15
            } else {
                frame_idx < 15
            })
            &&& (w.unmatched_frames.contains_key(id) && w.unmatched_frames[id].len() >= 8) || (
            exists|elder: i32| #[trigger]
                w.overlap_pairs.contains_key((elder, id)) && w.overlap_pairs[(elder, id)].len()
                    >= 8)
        },
{
    overdue_objects_are_removed(w, frame_idx, id);
}

/// After a frame, two objects have shared as many detections as before and one more for each
/// detection of the frame that touches both, where the first of them is the eldest that it touches:
/// objects that are new on the frame count as first seen on it.
pub proof fn sharing_is_watched(
    w: Watch,
    frame_idx: i32,
    touched: Seq<Seq<i32>>,
    unmatched: Seq<i32>,
    new_obj_ids: Seq<i32>,
    elder: i32,
    id: i32,
)
    requires
        forall|i: int| 0 <= i < touched.len() ==> (#[trigger] touched[i]).no_duplicates(),
    ensures
        ({
            let after = observed(w, frame_idx, touched, unmatched, new_obj_ids);
            &&& log_of(after.overlap_pairs, (elder, id)).len() == log_of(
                w.overlap_pairs,
                (elder, id),
            ).len() + tally(
                Seq::new(
                    touched.len(),
                    |i: int| elder != id && touched[i].contains(id) && touched[i].contains(elder)
                        && elder == eldest(touched[i], after.first_frame, touched[i].len()),
                ),
            )
            &&& forall|x: i32| #[trigger]
                after.first_frame.contains_key(x) <==> w.first_frame.contains_key(x)
                    || new_obj_ids.contains(x)
            &&& forall|x: i32|
                w.first_frame.contains_key(x) ==> #[trigger] after.first_frame[x]
                    == w.first_frame[x]
            &&& forall|x: i32|
                new_obj_ids.contains(x) && !w.first_frame.contains_key(x)
                    ==> #[trigger] after.first_frame[x] == frame_idx
            &&& after.removed == w.removed
        }),
{
    let after = observed(w, frame_idx, touched, unmatched, new_obj_ids);
    shared_detections_are_logged(
        w.overlap_pairs,
        touched,
        after.first_frame,
        frame_idx,
        elder,
        id,
    );
    assert forall|x: i32| #[trigger]
        after.first_frame.contains_key(x) <==> w.first_frame.contains_key(x)
            || new_obj_ids.contains(x) by {
        new_objects_are_noted(w.first_frame, new_obj_ids, frame_idx, x);
    }
    assert forall|x: i32| w.first_frame.contains_key(x) implies #[trigger] after.first_frame[x]
        == w.first_frame[x] by {
        new_objects_are_noted(w.first_frame, new_obj_ids, frame_idx, x);
    }
    assert forall|x: i32|
        new_obj_ids.contains(x) && !w.first_frame.contains_key(
            x,
        ) implies #[trigger] after.first_frame[x] == frame_idx by {
        new_objects_are_noted(w.first_frame, new_obj_ids, frame_idx, x);
    }
}

} // verus!
