//! The feature pyramid of the image encoder: the order in which levels are merged.
use super::config::FpnConfig;
use vstd::prelude::*;

verus! {

/// One step of the pyramid, from the coarsest level down.
#[derive(Clone, Copy, Debug, PartialEq, Eq, Structural)]
pub struct FpnStep {
    /// The level of the trunk that is projected, the finest being zero.
    pub level: usize,
    /// The lateral convolution that projects it; these are stored the coarsest first.
    pub conv: usize,
    /// Whether the level above, enlarged, is added.
    pub merge: bool,
}

/// What the `k`-th step does in a pyramid of `n` levels.
pub open spec fn nth_step(n: int, top_down: Seq<i32>, k: int) -> FpnStep {
    FpnStep {
        level: (n - 1 - k) as usize,
        conv: k as usize,
        merge: k > 0 && exists|t: int|
            0 <= t < top_down.len() && #[trigger] top_down[t] == n - 1 - k,
    }
}

/// The steps of the pyramid.
pub fn fpn_steps(cfg: &FpnConfig) -> (r: Vec<FpnStep>)
    requires
        cfg.backbone_channel_list@.len() <= i32::MAX,
    ensures
        r@.len() == cfg.backbone_channel_list@.len(),
        forall|k: int|
            0 <= k < r@.len() ==> #[trigger] r@[k] == nth_step(
                r@.len() as int,
                cfg.fpn_top_down_levels@,
                k,
            ),
{
    let n: usize = cfg.backbone_channel_list.len();
    let mut r: Vec<FpnStep> = Vec::new();
    let mut k: usize = 0;
    while k < n
        invariant
            k <= n == cfg.backbone_channel_list@.len() <= i32::MAX,
            r@.len() == k,
            forall|j: int|
                0 <= j < k ==> #[trigger] r@[j] == nth_step(
                    n as int,
                    cfg.fpn_top_down_levels@,
                    j,
                ),
        decreases n - k,
    {
        let level: usize = n - 1 - k;
        let listed = lists_level(&cfg.fpn_top_down_levels, level as i32);
        r.push(FpnStep { level, conv: k, merge: k > 0 && listed });
        k = k + 1;
    }
    r
}

fn lists_level(levels: &[i32], level: i32) -> (r: bool)
    ensures
        r == exists|t: int| 0 <= t < levels@.len() && #[trigger] levels@[t] == level,
{
    let mut t: usize = 0;
    while t < levels.len()
        invariant
            t <= levels@.len(),
            forall|u: int| 0 <= u < t ==> #[trigger] levels@[u] != level,
        decreases levels@.len() - t,
    {
        if levels[t] == level {
            return true;
        }
        t = t + 1;
    }
    false
}

/// The number of levels that the pyramid hands on: all but the coarsest ones that it drops.
pub fn kept_levels(cfg: &FpnConfig) -> (r: usize)
    requires
        0 <= cfg.scalp <= cfg.backbone_channel_list@.len(),
    ensures
        r == cfg.backbone_channel_list@.len() - cfg.scalp,
{
    cfg.backbone_channel_list.len() - cfg.scalp as usize
}

/// Each level is visited once, by the convolution for its channel count: levels run the finest
/// first, convolutions the coarsest first.
pub proof fn levels_meet_their_convolutions(n: int, top_down: Seq<i32>, j: int, k: int)
    requires
        0 <= j < k < n <= usize::MAX,
    ensures
        nth_step(n, top_down, j).level > nth_step(n, top_down, k).level,
        nth_step(n, top_down, k).level + nth_step(n, top_down, k).conv == n - 1,
        !nth_step(n, top_down, 0).merge,
{
}

/// The pyramid is built from the last level down: the last level starts it, and each level below is
/// merged with what came before exactly where it is listed.
pub proof fn levels_are_merged_where_listed(n: int, top_down: Seq<i32>, k: int)
    requires
        0 <= k < n <= i32::MAX,
    ensures
        nth_step(n, top_down, k).level == n - 1 - k,
        nth_step(n, top_down, k).conv == k,
        nth_step(n, top_down, k).merge <==> k > 0 && top_down.contains((n - 1 - k) as i32),
{
    let level = (n - 1 - k) as i32;
    if top_down.contains(level) {
        let t = top_down.index_of(level);
        assert(top_down[t] == n - 1 - k);
    }
    if exists|t: int| 0 <= t < top_down.len() && #[trigger] top_down[t] == n - 1 - k {
        let t = choose|t: int| 0 <= t < top_down.len() && #[trigger] top_down[t] == n - 1 - k;
        assert(top_down[t] == level);
    }
}

} // verus!
