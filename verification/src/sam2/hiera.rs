//! The hierarchical trunk: the shape of every block, and the windows it attends in.
use super::config::{encoder_is, HieraConfig, Sam2ImageEncoderConfig, Sam2ModelSize, TWO};
use crate::binary32::{doubling_is_exact, scale_integer, scaled_integer, Binary32, EXACT_LIMIT};
use crate::layout::{padding, padding_for};
use vstd::arithmetic::power2::pow2;
use vstd::prelude::*;

verus! {

/// The sum of the first `n` values.
pub open spec fn sum_of(s: Seq<i32>, n: nat) -> int
    decreases n,
{
    if n == 0 {
        0
    } else {
        sum_of(s, (n - 1) as nat) + s[n - 1]
    }
}

/// Every partial sum, and the block index before it, is in range.
pub open spec fn sums_in_range(s: Seq<i32>) -> bool {
    forall|n: nat| n <= s.len() ==> i32::MIN < #[trigger] sum_of(s, n) <= i32::MAX
}

/// The index of the block that closes each stage.
pub open spec fn ends(stages: Seq<i32>) -> Seq<i32> {
    Seq::new(stages.len(), |s: int| (sum_of(stages, (s + 1) as nat) - 1) as i32)
}

/// The blocks that close the stages.
pub fn stage_ends(cfg: &HieraConfig) -> (r: Vec<i32>)
    requires
        sums_in_range(cfg.stages@),
    ensures
        r@ == ends(cfg.stages@),
{
    let mut r: Vec<i32> = Vec::new();
    let mut total: i32 = 0;
    let mut s: usize = 0;
    while s < cfg.stages.len()
        invariant
            s <= cfg.stages@.len(),
            sums_in_range(cfg.stages@),
            total == sum_of(cfg.stages@, s as nat),
            r@ == ends(cfg.stages@).take(s as int),
        decreases cfg.stages@.len() - s,
    {
        assert(i32::MIN < sum_of(cfg.stages@, (s + 1) as nat) <= i32::MAX);
        total = total + cfg.stages[s];
        r.push(total - 1);
        assert(r@ =~= ends(cfg.stages@).take(s + 1));
        s = s + 1;
    }
    assert(ends(cfg.stages@).take(cfg.stages@.len() as int) =~= ends(cfg.stages@));
    r
}

/// The shape of one block.
#[derive(Clone, Copy, Debug, PartialEq, Eq, Structural)]
pub struct BlockSpec {
    pub dim: i32,
    pub dim_out: i32,
    pub num_heads: i32,
    /// The side of the attention windows; zero for global attention.
    pub window: i32,
    /// The stride of the query pool, where the block has one.
    pub q_stride: Option<i32>,
}

/// Block `i` opens a new stage: the block before it closes one.
pub open spec fn opens_stage(stages: Seq<i32>, i: int) -> bool {
    i > 0 && ends(stages).contains((i - 1) as i32)
}

/// How many of the first `n` blocks open a new stage.
pub open spec fn stages_opened(stages: Seq<i32>, n: nat) -> nat
    decreases n,
{
    if n == 0 {
        0
    } else {
        stages_opened(stages, (n - 1) as nat) + if opens_stage(stages, n - 1) {
            1nat
        } else {
            0nat
        }
    }
}

/// A value after `t` stage boundaries, each of which scales it and drops the fraction.
pub open spec fn grown(start: i32, factor: Binary32, t: nat) -> int
    decreases t,
{
    if t == 0 {
        start as int
    } else {
        scaled_integer(grown(start, factor, (t - 1) as nat), factor)
    }
}

/// The number of stage boundaries that pool the query.
pub open spec fn pooled_stages(cfg: HieraConfig) -> int {
    if 0 <= cfg.q_pool < cfg.stages@.len() - 1 {
        cfg.q_pool as int
    } else {
        cfg.stages@.len() - 1
    }
}

/// Block `i` pools its query: it follows the end of one of the first pooled stages.
pub open spec fn pools_query(cfg: HieraConfig, i: int) -> bool {
    exists|s: int| 0 <= s < pooled_stages(cfg) && #[trigger] ends(cfg.stages@)[s] + 1 == i
}

/// The shape of block `i`. A block that opens a stage still attends in the windows of the stage
/// before.
pub open spec fn block_shape(cfg: HieraConfig, i: int) -> BlockSpec {
    let before = stages_opened(cfg.stages@, i as nat);
    let after = stages_opened(cfg.stages@, (i + 1) as nat);
    BlockSpec {
        dim: grown(cfg.embed_dim, cfg.dim_mul, before) as i32,
        dim_out: grown(cfg.embed_dim, cfg.dim_mul, after) as i32,
        num_heads: grown(cfg.num_heads, cfg.head_mul, after) as i32,
        window: if cfg.global_att_blocks@.contains(i as i32) {
            0
        } else {
            cfg.window_spec@[before as int]
        },
        q_stride: if pools_query(cfg, i) {
            Some(cfg.q_stride)
        } else {
            None
        },
    }
}

/// The number of blocks.
pub open spec fn depth(cfg: HieraConfig) -> int {
    sum_of(cfg.stages@, cfg.stages@.len())
}

/// The configuration describes a trunk: there is a stage, the blocks can be counted, and every
/// block finds its window.
pub open spec fn describes_trunk(cfg: HieraConfig) -> bool {
    &&& cfg.stages@.len() > 0
    &&& sums_in_range(cfg.stages@)
    &&& 0 <= depth(cfg)
    &&& forall|i: int|
        #![trigger stages_opened(cfg.stages@, i as nat)]
        0 <= i < depth(cfg) ==> stages_opened(cfg.stages@, i as nat) < cfg.window_spec@.len()
}

fn contains_index(v: &[i32], n: usize, value: i32) -> (r: bool)
    requires
        n <= v@.len(),
    ensures
        r == exists|k: int| 0 <= k < n && v@[k] == value,
{
    let mut k: usize = 0;
    while k < n
        invariant
            k <= n <= v@.len(),
            forall|j: int| 0 <= j < k ==> v@[j] != value,
        decreases n - k,
    {
        if v[k] == value {
            return true;
        }
        k = k + 1;
    }
    false
}

/// Whether every partial sum is in range.
fn sums_fit(stages: &[i32]) -> (r: bool)
    ensures
        r == sums_in_range(stages@),
{
    let mut total: i64 = 0;
    let mut s: usize = 0;
    while s < stages.len()
        invariant
            s <= stages@.len(),
            total == sum_of(stages@, s as nat),
            forall|n: nat| n <= s ==> i32::MIN < #[trigger] sum_of(stages@, n) <= i32::MAX,
        decreases stages@.len() - s,
    {
        assert(i32::MIN < sum_of(stages@, s as nat) <= i32::MAX);
        total = total + stages[s] as i64;
        assert(total == sum_of(stages@, (s + 1) as nat));
        if total <= i32::MIN as i64 || total > i32::MAX as i64 {
            return false;
        }
        s = s + 1;
    }
    true
}

/// Whether a configuration describes a trunk.
pub fn is_trunk(cfg: &HieraConfig) -> (r: bool)
    ensures
        r == describes_trunk(*cfg),
{
    let n: usize = cfg.stages.len();
    if n == 0 || !sums_fit(&cfg.stages) {
        return false;
    }
    let closing: Vec<i32> = stage_ends(cfg);
    assert(i32::MIN < sum_of(cfg.stages@, n as nat) <= i32::MAX);
    let total: i64 = closing[n - 1] as i64 + 1;
    assert(total == depth(*cfg));
    if total < 0 {
        return false;
    }
    let windows: usize = cfg.window_spec.len();
    let mut stage: usize = 0;
    let mut i: i32 = 0;
    assert(stages_opened(cfg.stages@, 0) == 0);
    while (i as i64) < total
        invariant
            0 <= i <= total == depth(*cfg) <= i32::MAX,
            closing@ == ends(cfg.stages@),
            n == cfg.stages@.len() > 0,
            windows == cfg.window_spec@.len(),
            stage == stages_opened(cfg.stages@, i as nat),
            stage <= i,
            forall|k: int|
                #![trigger stages_opened(cfg.stages@, k as nat)]
                0 <= k < i ==> stages_opened(cfg.stages@, k as nat) < windows,
        decreases total - i,
    {
        if stage >= windows {
            assert(stages_opened(cfg.stages@, i as nat) >= cfg.window_spec@.len());
            return false;
        }
        if i > 0 && contains_index(&closing, n, i - 1) {
            stage = stage + 1;
        }
        assert(stage == stages_opened(cfg.stages@, (i + 1) as nat));
        i = i + 1;
    }
    true
}

/// The shape of every block.
pub fn block_specs(cfg: &HieraConfig) -> (r: Vec<BlockSpec>)
    requires
        describes_trunk(*cfg),
    ensures
        r@.len() == depth(*cfg),
        forall|i: int| 0 <= i < r@.len() ==> #[trigger] r@[i] == block_shape(*cfg, i),
{
    let closing: Vec<i32> = stage_ends(cfg);
    let n: usize = cfg.stages.len();
    let pooled: usize = if cfg.q_pool >= 0 && (cfg.q_pool as usize) < n - 1 {
        cfg.q_pool as usize
    } else {
        n - 1
    };
    let last: i32 = closing[n - 1];
    let total: i64 = last as i64 + 1;
    assert(total == depth(*cfg));
    let mut r: Vec<BlockSpec> = Vec::new();
    let mut width: i32 = cfg.embed_dim;
    let mut heads: i32 = cfg.num_heads;
    let mut stage: usize = 0;
    let mut i: i32 = 0;
    proof {
        assert(stages_opened(cfg.stages@, 0) == 0);
    }
    while (i as i64) < total
        invariant
            0 <= i <= total == depth(*cfg) <= i32::MAX,
            describes_trunk(*cfg),
            closing@ == ends(cfg.stages@),
            n == cfg.stages@.len() > 0,
            pooled == pooled_stages(*cfg),
            stage == stages_opened(cfg.stages@, i as nat),
            width == grown(cfg.embed_dim, cfg.dim_mul, stage as nat),
            heads == grown(cfg.num_heads, cfg.head_mul, stage as nat),
            r@.len() == i,
            forall|k: int| 0 <= k < i ==> #[trigger] r@[k] == block_shape(*cfg, k),
        decreases total - i,
    {
        proof {
            assert(stages_opened(cfg.stages@, i as nat) < cfg.window_spec@.len());
        }
        let window: i32 = if contains_index(
            &cfg.global_att_blocks,
            cfg.global_att_blocks.len(),
            i,
        ) {
            0
        } else {
            cfg.window_spec[stage]
        };
        let windows: usize = cfg.window_spec.len();
        let dim: i32 = width;
        let opens = i > 0 && contains_index(&closing, n, i - 1);
        assert(opens == opens_stage(cfg.stages@, i as int));
        if opens {
            width = scale_integer(width, cfg.dim_mul);
            heads = scale_integer(heads, cfg.head_mul);
            stage = stage + 1;
        }
        let pools = follows_end(&closing, pooled, i);
        assert(pools == pools_query(*cfg, i as int));
        let q_stride: Option<i32> = if pools {
            Some(cfg.q_stride)
        } else {
            None
        };
        r.push(BlockSpec { dim, dim_out: width, num_heads: heads, window, q_stride });
        assert(r@[i as int] == block_shape(*cfg, i as int));
        i = i + 1;
    }
    r
}

/// Whether block `i` follows one of the first `n` closing blocks.
fn follows_end(closing: &[i32], n: usize, i: i32) -> (r: bool)
    requires
        n <= closing@.len(),
    ensures
        r == exists|s: int| 0 <= s < n && #[trigger] closing@[s] + 1 == i,
{
    let mut s: usize = 0;
    while s < n
        invariant
            s <= n <= closing@.len(),
            forall|t: int| 0 <= t < s ==> #[trigger] closing@[t] + 1 != i,
        decreases n - s,
    {
        if closing[s] as i64 + 1 == i as i64 {
            return true;
        }
        s = s + 1;
    }
    false
}

/// With a factor of two, every stage doubles the width until the limit of the machine.
pub proof fn widths_double(start: i32, t: nat)
    requires
        0 <= start,
        start * pow2(t) <= EXACT_LIMIT,
    ensures
        grown(start, Binary32 { bits: TWO }, t) == start * pow2(t),
    decreases t,
{
    vstd::arithmetic::power2::lemma2_to64();
    if t == 0 {
        assert(start * pow2(0) == start) by (nonlinear_arith)
            requires
                pow2(0) == 1,
        ;
    } else {
        let u = (t - 1) as nat;
        vstd::arithmetic::power2::lemma_pow2_adds(1, u);
        vstd::arithmetic::power2::lemma_pow2_pos(u);
        assert(pow2(t) == 2 * pow2(u));
        assert(start * pow2(t) == 2 * (start * pow2(u))) by (nonlinear_arith)
            requires
                pow2(t) == 2 * pow2(u),
        ;
        assert(0 <= start * pow2(u)) by (nonlinear_arith)
            requires
                0 <= start,
                pow2(u) > 0,
        ;
        widths_double(start, u);
        doubling_is_exact(start * pow2(u), i32::MAX as int);
    }
}

/// Every stage has a block.
pub open spec fn stages_positive(stages: Seq<i32>) -> bool {
    forall|s: int| 0 <= s < stages.len() ==> #[trigger] stages[s] >= 1
}

proof fn sums_increase(stages: Seq<i32>, a: nat, b: nat)
    requires
        stages_positive(stages),
        a < b <= stages.len(),
    ensures
        0 <= sum_of(stages, a) < sum_of(stages, b),
    decreases b,
{
    if a < b - 1 {
        sums_increase(stages, a, (b - 1) as nat);
    } else if a > 0 {
        sums_increase(stages, (a - 1) as nat, a);
    }
    assert(stages[b - 1] >= 1);
}

/// A block lies in stage `s` exactly where as many stages were opened up to it: after the end of
/// the stage before and up to the end of its own.
pub proof fn block_lies_in_stage(stages: Seq<i32>, s: int, n: nat)
    requires
        stages_positive(stages),
        sums_in_range(stages),
        0 <= s < stages.len(),
        sum_of(stages, s as nat) < n <= sum_of(stages, (s + 1) as nat),
    ensures
        stages_opened(stages, n) == s,
    decreases n,
{
    if s > 0 {
        sums_increase(stages, 0, s as nat);
    }
    if n == 1 {
        if s > 0 {
            assert(sum_of(stages, 0) == 0);
        }
        assert(stages_opened(stages, 1) == stages_opened(stages, 0));
    } else {
        let m = (n - 1) as nat;
        assert(i32::MIN < sum_of(stages, (s + 1) as nat) <= i32::MAX);
        if m > sum_of(stages, s as nat) {
            block_lies_in_stage(stages, s, m);
            if opens_stage(stages, m as int) {
                let t = choose|t: int|
                    0 <= t < stages.len() && ends(stages)[t] == (m - 1) as i32;
                assert(i32::MIN < sum_of(stages, (t + 1) as nat) <= i32::MAX);
                assert(sum_of(stages, (t + 1) as nat) == m);
                if t < s {
                    if t + 1 < s {
                        sums_increase(stages, (t + 1) as nat, s as nat);
                    }
                } else if t > s {
                    sums_increase(stages, (s + 1) as nat, (t + 1) as nat);
                }
            }
        } else {
            assert(m == sum_of(stages, s as nat));
            assert(s > 0);
            let before = (s - 1) as nat;
            sums_increase(stages, before, s as nat);
            block_lies_in_stage(stages, s - 1, m);
            assert(ends(stages)[s - 1] == (m - 1) as i32);
            assert(ends(stages).contains((m - 1) as i32));
        }
    }
}

/// The published configurations describe trunks, and the width at the end of each stage is the
/// channel count that the feature pyramid expects of it.
pub proof fn published_widths_fit_the_pyramid(size: Sam2ModelSize, cfg: Sam2ImageEncoderConfig)
    requires
        encoder_is(size, cfg),
    ensures
        describes_trunk(cfg.hiera),
        cfg.fpn.backbone_channel_list@.len() == cfg.hiera.stages@.len(),
        forall|s: int|
            0 <= s < cfg.hiera.stages@.len() ==> #[trigger] block_shape(
                cfg.hiera,
                ends(cfg.hiera.stages@)[s] as int,
            ).dim_out == cfg.fpn.backbone_channel_list@[3 - s],
{
    let c = cfg.hiera;
    let stages = c.stages@;
    let embed = c.embed_dim;
    let two = Binary32 { bits: TWO };
    assert(stages.len() == 4);
    vstd::arithmetic::power2::lemma2_to64();
    reveal_with_fuel(sum_of, 5);
    assert(sum_of(stages, 0) == 0);
    assert(sum_of(stages, 1) == stages[0]);
    assert(sum_of(stages, 2) == stages[0] + stages[1]);
    assert(sum_of(stages, 3) == stages[0] + stages[1] + stages[2]);
    assert(sum_of(stages, 4) == stages[0] + stages[1] + stages[2] + stages[3]);
    assert(stages_positive(stages));
    assert(sums_in_range(stages));
    assert(embed * 8 <= 1152);
    assert forall|t: nat| t < 4 implies #[trigger] grown(embed, two, t) == embed * pow2(t) by {
        assert(pow2(t) == 1 || pow2(t) == 2 || pow2(t) == 4 || pow2(t) == 8);
        assert(0 <= embed * pow2(t) <= 1152) by (nonlinear_arith)
            requires
                0 <= embed * 8 <= 1152,
                0 < pow2(t) <= 8,
        ;
        widths_double(embed, t);
    }
    assert forall|i: int|
        #![trigger stages_opened(stages, i as nat)]
        0 <= i <= depth(c) implies stages_opened(stages, i as nat) < 4 by {
        if i == 0 {
            assert(stages_opened(stages, 0) == 0);
        } else if i <= sum_of(stages, 1) {
            block_lies_in_stage(stages, 0, i as nat);
        } else if i <= sum_of(stages, 2) {
            block_lies_in_stage(stages, 1, i as nat);
        } else if i <= sum_of(stages, 3) {
            block_lies_in_stage(stages, 2, i as nat);
        } else {
            block_lies_in_stage(stages, 3, i as nat);
        }
    }
    assert forall|s: int| 0 <= s < 4 implies #[trigger] block_shape(
        c,
        ends(stages)[s] as int,
    ).dim_out == cfg.fpn.backbone_channel_list@[3 - s] by {
        sums_increase(stages, s as nat, (s + 1) as nat);
        block_lies_in_stage(stages, s, sum_of(stages, (s + 1) as nat) as nat);
        assert(grown(embed, two, s as nat) == embed * pow2(s as nat));
        assert(s == 0 || s == 1 || s == 2 || s == 3);
        assert(embed * pow2(s as nat) == cfg.fpn.backbone_channel_list@[3 - s]) by {
            assert(embed * 1 == embed && embed * 2 == embed + embed);
        }
    }
}

/// The windows that the output of a block is stitched from.
#[derive(Clone, Copy, Debug)]
pub struct StitchGeometry {
    pub window: usize,
    pub pad_hw: (usize, usize),
    pub hw: (usize, usize),
}

/// The geometry for stitching the attended windows of a block: that of the input, or where the
/// query was pooled that of the pooled map, in windows smaller by the stride.
pub open spec fn stitch_geometry(
    window: int,
    q_stride: Option<usize>,
    input_hw: (int, int),
    pooled_hw: (int, int),
    g: StitchGeometry,
) -> bool {
    let (win, h, w) = match q_stride {
        Some(stride) => (window / (stride as int), pooled_hw.0, pooled_hw.1),
        None => (window, input_hw.0, input_hw.1),
    };
    &&& g.window == win
    &&& g.hw.0 == h
    &&& g.hw.1 == w
    &&& g.pad_hw.0 == h + padding(h, win)
    &&& g.pad_hw.1 == w + padding(w, win)
}

/// Choose the geometry for stitching the windows of a block.
pub fn attended_geometry(
    window: usize,
    q_stride: Option<usize>,
    input_hw: (usize, usize),
    pooled_hw: (usize, usize),
) -> (g: StitchGeometry)
    requires
        0 < window,
        q_stride is Some ==> 0 < q_stride->0 <= window,
        input_hw.0 + window <= usize::MAX,
        input_hw.1 + window <= usize::MAX,
        pooled_hw.0 + window <= usize::MAX,
        pooled_hw.1 + window <= usize::MAX,
    ensures
        stitch_geometry(
            window as int,
            q_stride,
            (input_hw.0 as int, input_hw.1 as int),
            (pooled_hw.0 as int, pooled_hw.1 as int),
            g,
        ),
{
    let (win, h, w): (usize, usize, usize) = match q_stride {
        Some(stride) => {
            proof {
                assert(1 <= window as int / stride as int <= window) by (nonlinear_arith)
                    requires
                        0 < stride <= window,
                ;
            }
            (window / stride, pooled_hw.0, pooled_hw.1)
        },
        None => (window, input_hw.0, input_hw.1),
    };
    let pad_h: usize = padding_for(h, win);
    let pad_w: usize = padding_for(w, win);
    StitchGeometry { window: win, pad_hw: (h + pad_h, w + pad_w), hw: (h, w) }
}

/// The blocks of a stage take its shape: widths and heads double from stage to stage, the first
/// block of a later stage still has the width and the window of the stage before it going in, blocks
/// with global attention have no window, and the first block of each stage that pools, and no other,
/// shrinks its grid.
pub proof fn blocks_take_the_shape_of_their_stage(cfg: HieraConfig, s: int, i: int)
    requires
        stages_positive(cfg.stages@),
        sums_in_range(cfg.stages@),
        0 <= s < cfg.stages@.len(),
        sum_of(cfg.stages@, s as nat) <= i < sum_of(cfg.stages@, (s + 1) as nat),
        cfg.dim_mul.bits == 0x4000_0000,
        cfg.head_mul.bits == 0x4000_0000,
        0 <= cfg.embed_dim,
        0 <= cfg.num_heads,
        cfg.embed_dim * pow2(s as nat) <= EXACT_LIMIT,
        cfg.num_heads * pow2(s as nat) <= EXACT_LIMIT,
        0 <= cfg.q_pool < cfg.stages@.len(),
    ensures
        ({
            let b = block_shape(cfg, i);
            let first = i == sum_of(cfg.stages@, s as nat);
            let entering = if first && s > 0 {
                s - 1
            } else {
                s
            };
            &&& b.dim_out == cfg.embed_dim * pow2(s as nat)
            &&& b.num_heads == cfg.num_heads * pow2(s as nat)
            &&& b.dim == cfg.embed_dim * pow2(entering as nat)
            &&& b.window == if cfg.global_att_blocks@.contains(i as i32) {
                0
            } else {
                cfg.window_spec@[entering]
            }
            &&& b.q_stride is Some <==> first && 0 < s <= cfg.q_pool
            &&& b.q_stride is Some ==> b.q_stride == Some(cfg.q_stride)
        }),
{
    let stages = cfg.stages@;
    let first = i == sum_of(stages, s as nat);
    sums_are_nonnegative(stages, s as nat);
    block_lies_in_stage(stages, s, (i + 1) as nat);
    widths_double(cfg.embed_dim, s as nat);
    widths_double(cfg.num_heads, s as nat);
    if first {
        if s > 0 {
            sum_grows(stages, s - 1, s);
            block_lies_in_stage(stages, s - 1, i as nat);
            vstd::arithmetic::power2::lemma_pow2_unfold(s as nat);
            assert(cfg.embed_dim * pow2((s - 1) as nat) <= cfg.embed_dim * pow2(s as nat))
                by (nonlinear_arith)
                requires
                    pow2(s as nat) == 2 * pow2((s - 1) as nat),
                    0 <= cfg.embed_dim,
            ;
            widths_double(cfg.embed_dim, (s - 1) as nat);
        } else {
            assert(i == 0);
        }
    } else {
        block_lies_in_stage(stages, s, i as nat);
    }
    if pools_query(cfg, i) {
        let t = choose|t: int| 0 <= t < pooled_stages(cfg) && #[trigger] ends(stages)[t] + 1 == i;
        assert(sum_of(stages, (t + 1) as nat) == i);
        if t + 1 < s {
            sum_grows(stages, t + 1, s);
        }
        if t + 1 > s {
            sum_grows(stages, s, t + 1);
            if t + 1 > s + 1 {
                sum_grows(stages, s + 1, t + 1);
            }
        }
        assert(t + 1 == s);
    }
    if first && 0 < s <= cfg.q_pool {
        assert(ends(stages)[s - 1] + 1 == i);
    }
}

proof fn sum_grows(stages: Seq<i32>, a: int, b: int)
    requires
        stages_positive(stages),
        0 <= a < b <= stages.len(),
    ensures
        sum_of(stages, a as nat) < sum_of(stages, b as nat),
    decreases b,
{
    assert(stages[b - 1] >= 1);
    if a < b - 1 {
        sum_grows(stages, a, b - 1);
    }
}

proof fn sums_are_nonnegative(stages: Seq<i32>, n: nat)
    requires
        stages_positive(stages),
        n <= stages.len(),
    ensures
        0 <= sum_of(stages, n),
{
    if n > 0 {
        sum_grows(stages, 0, n as int);
    }
}

/// Windows are stitched at the size they have after pooling, to a grid that they fill without a rest
/// and with the fewest windows.
pub proof fn stitched_windows_fill_the_grid(
    window: int,
    stride: usize,
    input_hw: (int, int),
    pooled_hw: (int, int),
    plain: StitchGeometry,
    pooled: StitchGeometry,
)
    requires
        0 < window,
        0 < stride <= window,
        0 <= input_hw.0,
        0 <= input_hw.1,
        0 <= pooled_hw.0,
        0 <= pooled_hw.1,
        stitch_geometry(window, None, input_hw, pooled_hw, plain),
        stitch_geometry(window, Some(stride), input_hw, pooled_hw, pooled),
    ensures
        plain.window == window,
        pooled.window == window / (stride as int),
        plain.hw.0 == input_hw.0 && plain.hw.1 == input_hw.1,
        pooled.hw.0 == pooled_hw.0 && pooled.hw.1 == pooled_hw.1,
        plain.pad_hw.0 as int % window == 0 && plain.pad_hw.1 as int % window == 0,
        input_hw.0 <= plain.pad_hw.0 < input_hw.0 + window,
        input_hw.1 <= plain.pad_hw.1 < input_hw.1 + window,
        pooled.pad_hw.0 as int % (pooled.window as int) == 0,
        pooled.pad_hw.1 as int % (pooled.window as int) == 0,
        pooled_hw.0 <= pooled.pad_hw.0 < pooled_hw.0 + pooled.window,
        pooled_hw.1 <= pooled.pad_hw.1 < pooled_hw.1 + pooled.window,
{
    let s = stride as int;
    assert(0 < window / s) by (nonlinear_arith)
        requires
            0 < s <= window,
    ;
    crate::layout::padding_is_least(input_hw.0, window);
    crate::layout::padding_is_least(input_hw.1, window);
    crate::layout::padding_is_least(pooled_hw.0, window / s);
    crate::layout::padding_is_least(pooled_hw.1, window / s);
}

} // verus!
