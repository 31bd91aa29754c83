//! The shape of the two-stream transformer and the decisions around its blocks: which tokens count
//! as clean, which keys are masked, which control residual each block gets, and where adapters go.
use crate::binary32::{zero_weight_adds_nothing, Binary32, SIGN_BIT};
use crate::sam2::util::{join, joined};
use crate::text::{decimal, decimal_round_trip, digits, parse_usize, parsed, same_text};
use vstd::arithmetic::div_mod::{lemma_fundamental_div_mod, lemma_fundamental_div_mod_converse};
use vstd::prelude::*;
use vstd::string::{StrSliceExecFns, StringExecFns};

verus! {

/// The bit pattern of a millionth, the epsilon of the text norm.
pub const TXT_NORM_EPS: u32 = 0x3586_37bd;

/// The bit pattern of minus a thousand million, added to the logits of masked keys.
pub const MASK_FILL: u32 = 0xce6e_6b28;

/// The transformer's dimensions.
#[derive(Clone, Copy, Debug, PartialEq, Eq, Structural)]
pub struct QwenTransformerConfig {
    pub in_channels: i32,
    pub out_channels: i32,
    pub num_layers: usize,
    pub num_heads: i32,
    pub head_dim: i32,
    pub joint_attention_dim: i32,
    pub patch_size: i32,
    pub txt_norm_eps: Binary32,
    /// Tokens of conditioning images are modulated as clean.
    pub zero_cond_t: bool,
}

impl QwenTransformerConfig {
    /// The published dimensions, with or without clean conditioning tokens.
    pub open spec fn published(zero_cond_t: bool) -> QwenTransformerConfig {
        QwenTransformerConfig {
            in_channels: 64,
            out_channels: 16,
            num_layers: 60,
            num_heads: 24,
            head_dim: 128,
            joint_attention_dim: 3584,
            patch_size: 2,
            txt_norm_eps: Binary32 { bits: TXT_NORM_EPS },
            zero_cond_t,
        }
    }

    /// The dimensions of the text-to-image model.
    pub fn qwen_image() -> (r: QwenTransformerConfig)
        ensures
            r == Self::published(false),
    {
        QwenTransformerConfig {
            in_channels: 64,
            out_channels: 16,
            num_layers: 60,
            num_heads: 24,
            head_dim: 128,
            joint_attention_dim: 3584,
            patch_size: 2,
            txt_norm_eps: Binary32 { bits: TXT_NORM_EPS },
            zero_cond_t: false,
        }
    }

    /// The dimensions of the editing model: the same, with clean conditioning tokens.
    pub fn qwen_image_edit() -> (r: QwenTransformerConfig)
        ensures
            r == Self::published(true),
    {
        let mut r: QwenTransformerConfig = QwenTransformerConfig::qwen_image();
        r.zero_cond_t = true;
        r
    }

    /// The width of a token inside the transformer.
    pub fn inner_dim(&self) -> (r: i32)
        requires
            i32::MIN <= self.num_heads * self.head_dim <= i32::MAX,
        ensures
            r == self.num_heads * self.head_dim,
    {
        self.num_heads * self.head_dim
    }
}

/// The dimensions of the control branch.
#[derive(Clone, Copy, Debug, PartialEq, Eq, Structural)]
pub struct QwenControlNetConfig {
    pub num_layers: usize,
    pub num_heads: i32,
    pub head_dim: i32,
    pub txt_norm_eps: Binary32,
}

impl QwenControlNetConfig {
    /// The published control branch: five blocks with the heads of the base.
    pub fn qwen_image_union() -> (r: QwenControlNetConfig)
        ensures
            r.num_layers == 5,
            r.num_heads == QwenTransformerConfig::published(false).num_heads,
            r.head_dim == QwenTransformerConfig::published(false).head_dim,
            r.txt_norm_eps == QwenTransformerConfig::published(false).txt_norm_eps,
    {
        let base: QwenTransformerConfig = QwenTransformerConfig::qwen_image();
        QwenControlNetConfig {
            num_layers: 5,
            num_heads: base.num_heads,
            head_dim: base.head_dim,
            txt_norm_eps: base.txt_norm_eps,
        }
    }
}

/// How many consecutive blocks share a control residual: the share of each, rounded up.
pub open spec fn interval(layers: int, residuals: int) -> int {
    layers / residuals + if layers % residuals == 0 {
        0int
    } else {
        1int
    }
}

/// The control residual of block `i`.
pub open spec fn residual_of(layers: int, residuals: int, i: int) -> int {
    i / interval(layers, residuals)
}

/// Every block has a residual of its own interval: no block runs past the last residual.
pub proof fn residuals_cover_the_blocks(layers: int, residuals: int, i: int)
    requires
        0 <= i < layers,
        0 < residuals,
    ensures
        0 < interval(layers, residuals),
        layers <= interval(layers, residuals) * residuals,
        0 <= residual_of(layers, residuals, i) < residuals,
{
    let (n, k) = (layers, residuals);
    let w = interval(n, k);
    let (share, rest) = (n / k, n % k);
    lemma_fundamental_div_mod(n, k);
    assert(w > 0 && n <= w * k) by (nonlinear_arith)
        requires
            n == k * share + rest,
            0 <= rest < k,
            w == share + if rest == 0 {
                0int
            } else {
                1int
            },
            n > 0,
            k > 0,
    ;
    lemma_fundamental_div_mod(i, w);
    let q = i / w;
    assert(0 <= q < k) by (nonlinear_arith)
        requires
            i == w * q + i % w,
            0 <= i % w < w,
            0 <= i < n,
            n <= w * k,
            w > 0,
    ;
}

/// The residual of every block, in block order; none without a control branch.
pub open spec fn block_residuals(layers: nat, residuals: Option<usize>) -> Seq<Option<usize>> {
    Seq::new(
        layers,
        |i: int|
            match residuals {
                Some(k) => Some(residual_of(layers as int, k as int, i) as usize),
                None => None,
            },
    )
}

/// The residual of every block.
pub fn assign_residuals(layers: usize, residuals: Option<usize>) -> (r: Vec<Option<usize>>)
    requires
        residuals matches Some(k) ==> 0 < k,
    ensures
        r@ == block_residuals(layers as nat, residuals),
{
    let ghost goal = block_residuals(layers as nat, residuals);
    let mut r: Vec<Option<usize>> = Vec::new();
    let mut i: usize = 0;
    while i < layers
        invariant
            i <= layers,
            residuals matches Some(k) ==> 0 < k,
            goal == block_residuals(layers as nat, residuals),
            r@ == goal.take(i as int),
        decreases layers - i,
    {
        match residuals {
            Some(k) => {
                let share: usize = layers / k;
                proof {
                    residuals_cover_the_blocks(layers as int, k as int, i as int);
                }
                let wanted: usize = if layers % k == 0 {
                    i / share
                } else {
                    assert(share < usize::MAX) by {
                        lemma_fundamental_div_mod(layers as int, k as int);
                        assert(share < layers) by (nonlinear_arith)
                            requires
                                layers == k * share + layers as int % k as int,
                                0 < layers as int % k as int,
                                k >= 1,
                                share >= 0,
                        ;
                    }
                    i / (share + 1)
                };
                let index: usize = if wanted < k - 1 {
                    wanted
                } else {
                    k - 1
                };
                r.push(Some(index));
            },
            None => {
                r.push(None);
            },
        }
        assert(r@ =~= goal.take(i + 1));
        i = i + 1;
    }
    assert(goal.take(layers as int) =~= goal);
    r
}

/// The tokens of the first `n` grids.
pub open spec fn grid_tokens(grids: Seq<(usize, usize)>, n: nat) -> int
    decreases n,
{
    if n == 0 {
        0
    } else {
        grid_tokens(grids, (n - 1) as nat) + grids[n - 1].0 * grids[n - 1].1
    }
}

proof fn grid_tokens_grow(grids: Seq<(usize, usize)>, a: nat, b: nat)
    requires
        a <= b,
    ensures
        0 <= grid_tokens(grids, a) <= grid_tokens(grids, b),
    decreases b,
{
    if b > 0 {
        let (h, w) = grids[b - 1];
        assert(0 <= h * w) by (nonlinear_arith)
            requires
                0 <= h,
                0 <= w,
        ;
        if a < b {
            grid_tokens_grow(grids, a, (b - 1) as nat);
        } else {
            grid_tokens_grow(grids, (a - 1) as nat, (b - 1) as nat);
        }
    }
}

/// Which tokens are modulated as clean: those after the noise, in every row.
pub open spec fn modulate_index(rows: int, noise: int, conditioning: int) -> Seq<i32> {
    Seq::new(
        (rows * (noise + conditioning)) as nat,
        |i: int|
            if i % (noise + conditioning) < noise {
                0i32
            } else {
                1i32
            },
    )
}

/// Which tokens are modulated as clean: those of the conditioning grids, in every row.
pub fn build_modulate_index(
    b: usize,
    latent_h: usize,
    latent_w: usize,
    cond_grids: &[(usize, usize)],
) -> (r: Vec<i32>)
    requires
        latent_h * latent_w + grid_tokens(cond_grids@, cond_grids@.len()) <= usize::MAX,
        b * (latent_h * latent_w + grid_tokens(cond_grids@, cond_grids@.len())) <= usize::MAX,
    ensures
        r@ == modulate_index(
            b as int,
            latent_h * latent_w,
            grid_tokens(cond_grids@, cond_grids@.len()),
        ),
{
    let ghost cond = grid_tokens(cond_grids@, cond_grids@.len());
    proof {
        grid_tokens_grow(cond_grids@, 0, cond_grids@.len());
    }
    assert(0 <= latent_h * latent_w) by (nonlinear_arith)
        requires
            0 <= latent_h,
            0 <= latent_w,
    ;
    let noise_len: usize = latent_h * latent_w;
    let mut cond_len: usize = 0;
    let mut g: usize = 0;
    while g < cond_grids.len()
        invariant
            g <= cond_grids@.len(),
            cond_len == grid_tokens(cond_grids@, g as nat),
            cond == grid_tokens(cond_grids@, cond_grids@.len()),
            cond <= usize::MAX,
        decreases cond_grids@.len() - g,
    {
        let (h, w): (usize, usize) = cond_grids[g];
        proof {
            grid_tokens_grow(cond_grids@, (g + 1) as nat, cond_grids@.len());
            grid_tokens_grow(cond_grids@, 0, g as nat);
            assert(grid_tokens(cond_grids@, (g + 1) as nat) == cond_len + h * w);
            assert(0 <= h * w) by (nonlinear_arith)
                requires
                    0 <= h,
                    0 <= w,
            ;
        }
        cond_len = cond_len + h * w;
        g = g + 1;
    }
    let width: usize = noise_len + cond_len;
    let ghost goal = modulate_index(b as int, noise_len as int, cond);
    let mut r: Vec<i32> = Vec::new();
    let mut row: usize = 0;
    assert(0 * width == 0);
    while row < b
        invariant
            row <= b,
            width == noise_len + cond,
            b * width <= usize::MAX,
            goal == modulate_index(b as int, noise_len as int, cond),
            r@.len() == row * width,
            r@ == goal.take(row * width),
        decreases b - row,
    {
        let ghost base = row * width;
        proof {
            assert(base + width <= b * width) by (nonlinear_arith)
                requires
                    base == row * width,
                    row + 1 <= b,
                    width >= 0,
            ;
            assert(0 <= base) by (nonlinear_arith)
                requires
                    base == row * width,
                    row >= 0,
                    width >= 0,
            ;
        }
        let mut t: usize = 0;
        while t < width
            invariant
                t <= width,
                width == noise_len + cond,
                base == row * width,
                0 <= base,
                base + width <= b * width <= usize::MAX,
                goal == modulate_index(b as int, noise_len as int, cond),
                r@.len() == base + t,
                r@ == goal.take(base + t),
            decreases width - t,
        {
            let value: i32 = if t < noise_len {
                0
            } else {
                1
            };
            r.push(value);
            proof {
                lemma_fundamental_div_mod_converse(base + t, width as int, row as int, t as int);
                assert(goal[base + t] == value);
                assert(r@ =~= goal.take(base + t + 1));
            }
            t = t + 1;
        }
        row = row + 1;
        assert(row * width == base + width) by (nonlinear_arith)
            requires
                base == (row - 1) * width,
        ;
    }
    assert(goal.take(b * width) =~= goal);
    r
}

/// The grids that positions run over: the noise, then every conditioning grid.
pub open spec fn position_grids(noise: (usize, usize), grids: Seq<(usize, usize)>) -> Seq<
    (usize, usize),
> {
    seq![noise] + grids
}

/// Positions cover exactly the tokens of the sequence.
pub proof fn positions_cover_the_sequence(noise: (usize, usize), grids: Seq<(usize, usize)>, n: nat)
    requires
        n <= grids.len(),
    ensures
        grid_tokens(position_grids(noise, grids), n + 1) == noise.0 * noise.1 + grid_tokens(
            grids,
            n,
        ),
    decreases n,
{
    let all = position_grids(noise, grids);
    reveal_with_fuel(grid_tokens, 2);
    if n > 0 {
        positions_cover_the_sequence(noise, grids, (n - 1) as nat);
        assert(all[n as int] == grids[n - 1]);
    } else {
        assert(all[0] == noise);
    }
}

/// What a forward pass is made of, apart from its tensors.
#[derive(Debug)]
pub struct ForwardPlan {
    /// The timestep is doubled with a zero, and this says which tokens take the zero.
    pub modulate: Option<Vec<i32>>,
    /// The grids that positions run over.
    pub shapes: Vec<(usize, usize)>,
    /// The control residual that is added after each block.
    pub residuals: Vec<Option<Residual>>,
}

/// A control residual and the scale that it is added at.
#[derive(Clone, Copy, Debug, PartialEq, Eq, Structural)]
pub struct Residual {
    pub index: usize,
    pub scale: Binary32,
}

/// The residual of every block at the requested scale, in block order; none without a control
/// branch.
pub open spec fn scaled_residuals(layers: nat, residuals: Option<usize>, scale: Binary32) -> Seq<
    Option<Residual>,
> {
    Seq::new(
        layers,
        |i: int|
            match block_residuals(layers, residuals)[i] {
                Some(index) => Some(Residual { index, scale }),
                None => None,
            },
    )
}

/// The plan of a forward pass over `b` rows: the tokens of the conditioning grids take the zero
/// where the configuration asks for it, positions run over all grids, and every block takes its
/// control residual at the requested scale.
pub open spec fn plans_pass(
    cfg: QwenTransformerConfig,
    b: int,
    noise: (usize, usize),
    grids: Seq<(usize, usize)>,
    residuals: Option<usize>,
    scale: Binary32,
    plan: ForwardPlan,
) -> bool {
    &&& match plan.modulate {
        Some(index) => cfg.zero_cond_t && grids.len() > 0 && index@ == modulate_index(
            b,
            noise.0 * noise.1,
            grid_tokens(grids, grids.len()),
        ),
        None => !(cfg.zero_cond_t && grids.len() > 0),
    }
    &&& plan.shapes@ == position_grids(noise, grids)
    &&& plan.residuals@ == scaled_residuals(cfg.num_layers as nat, residuals, scale)
}

/// A control branch changes nothing in the plan of a pass but the residuals. Without one no block
/// takes a residual, whatever the scale: the pass is the plain one.
pub proof fn control_only_adds_residuals(
    cfg: QwenTransformerConfig,
    b: int,
    noise: (usize, usize),
    grids: Seq<(usize, usize)>,
    residuals: Option<usize>,
    scales: (Binary32, Binary32),
    plain: ForwardPlan,
    controlled: ForwardPlan,
)
    requires
        plans_pass(cfg, b, noise, grids, None, scales.0, plain),
        plans_pass(cfg, b, noise, grids, residuals, scales.1, controlled),
    ensures
        plain.modulate is Some <==> controlled.modulate is Some,
        plain.modulate is Some ==> plain.modulate->0@ == controlled.modulate->0@,
        plain.shapes@ == controlled.shapes@,
        plain.residuals@.len() == controlled.residuals@.len(),
        forall|i: int|
            0 <= i < plain.residuals@.len() ==> (#[trigger] plain.residuals@[i]) is None,
        residuals is None ==> plain.residuals@ == controlled.residuals@,
{
    if residuals is None {
        assert(plain.residuals@ =~= controlled.residuals@);
    }
}

/// The image stream with a residual added at a scale, value by value in single precision.
pub open spec fn residual_added(
    hidden: Seq<Binary32>,
    residual: Seq<Binary32>,
    scale: Binary32,
) -> Seq<Binary32> {
    Seq::new(hidden.len(), |p: int| hidden[p].plus(residual[p].times(scale)))
}

/// The image stream and the text stream after the first `n` blocks, where `block(i, ..)` is what
/// block `i` makes of the two, and the plan says which residual is added after it.
pub open spec fn carried_out<E>(
    plan: Seq<Option<Residual>>,
    residuals: Seq<Seq<Binary32>>,
    block: spec_fn(int, Seq<Binary32>, E) -> (Seq<Binary32>, E),
    start: (Seq<Binary32>, E),
    n: nat,
) -> (Seq<Binary32>, E)
    decreases n,
{
    if n == 0 {
        start
    } else {
        let before = carried_out(plan, residuals, block, start, (n - 1) as nat);
        let (hidden, encoder) = block(n - 1, before.0, before.1);
        match plan[n - 1] {
            Some(r) => (residual_added(hidden, residuals[r.index as int], r.scale), encoder),
            None => (hidden, encoder),
        }
    }
}

/// The stream holds numbers, and nowhere does the weighed residual put a positive zero on a negative
/// one.
pub open spec fn steady(
    hidden: Seq<Binary32>,
    residual: Seq<Binary32>,
    scale: Binary32,
) -> bool {
    forall|p: int|
        0 <= p < hidden.len() ==> !(#[trigger] hidden[p]).nan() && (hidden[p].bits != SIGN_BIT
            || residual[p].negative() != scale.negative())
}

/// A stack of finite residuals, each as long as the stream that it is added to.
pub open spec fn residuals_fit(residuals: Seq<Seq<Binary32>>, count: usize, len: nat) -> bool {
    &&& residuals.len() == count
    &&& forall|k: int| 0 <= k < count ==> (#[trigger] residuals[k]).len() == len
    &&& forall|k: int, p: int|
        0 <= k < count && 0 <= p < len ==> (#[trigger] residuals[k][p]).finite()
}

/// At scale zero the controlled pass is the plain pass, bit for bit: whatever the blocks compute,
/// after every number of them both streams are what they are without a control branch. The plain
/// pass is taken to meet numbers only, and no negative zero that a positive one is added to, which
/// would turn positive.
pub proof fn zero_scale_is_the_plain_pass<E>(
    cfg: QwenTransformerConfig,
    b: int,
    noise: (usize, usize),
    grids: Seq<(usize, usize)>,
    count: usize,
    scales: (Binary32, Binary32),
    plain: ForwardPlan,
    controlled: ForwardPlan,
    residuals: Seq<Seq<Binary32>>,
    block: spec_fn(int, Seq<Binary32>, E) -> (Seq<Binary32>, E),
    start: (Seq<Binary32>, E),
    n: nat,
)
    requires
        plans_pass(cfg, b, noise, grids, None, scales.0, plain),
        plans_pass(cfg, b, noise, grids, Some(count), scales.1, controlled),
        0 < count,
        scales.1.zero(),
        n <= cfg.num_layers,
        residuals_fit(residuals, count, start.0.len()),
        forall|i: nat|
            0 < i <= n ==> {
                let hidden = (#[trigger] carried_out(
                    plain.residuals@,
                    residuals,
                    block,
                    start,
                    i,
                )).0;
                let k = residual_of(cfg.num_layers as int, count as int, i - 1);
                hidden.len() == start.0.len() && steady(hidden, residuals[k], scales.1)
            },
    ensures
        carried_out(controlled.residuals@, residuals, block, start, n) == carried_out(
            plain.residuals@,
            residuals,
            block,
            start,
            n,
        ),
    decreases n,
{
    if n > 0 {
        let m = (n - 1) as nat;
        zero_scale_is_the_plain_pass(
            cfg,
            b,
            noise,
            grids,
            count,
            scales,
            plain,
            controlled,
            residuals,
            block,
            start,
            m,
        );
        residuals_cover_the_blocks(cfg.num_layers as int, count as int, m as int);
        let before = carried_out(plain.residuals@, residuals, block, start, m);
        let hidden = block(m as int, before.0, before.1).0;
        let after = carried_out(plain.residuals@, residuals, block, start, n);
        assert(plain.residuals@[m as int] is None);
        assert(after.0 == hidden);
        let k = residual_of(cfg.num_layers as int, count as int, m as int);
        let zero = scales.1;
        assert(controlled.residuals@[m as int] == Some(Residual { index: k as usize, scale: zero }));
        let sum = residual_added(hidden, residuals[k], zero);
        assert forall|p: int| 0 <= p < hidden.len() implies sum[p] == hidden[p] by {
            assert(residuals[k][p].finite());
            zero_weight_adds_nothing(hidden[p], residuals[k][p], zero);
        }
        assert(sum =~= hidden);
    }
}

impl QwenTransformerConfig {
    /// Plan a forward pass over `b` rows with these conditioning grids, and with this many control
    /// residuals at this scale where there is a control branch.
    pub fn forward_control(
        &self,
        b: usize,
        latent_h: usize,
        latent_w: usize,
        cond_grids: &[(usize, usize)],
        residuals: Option<usize>,
        control_scale: Binary32,
    ) -> (r: ForwardPlan)
        requires
            residuals matches Some(k) ==> 0 < k,
            latent_h * latent_w + grid_tokens(cond_grids@, cond_grids@.len()) <= usize::MAX,
            b * (latent_h * latent_w + grid_tokens(cond_grids@, cond_grids@.len())) <= usize::MAX,
        ensures
            plans_pass(
                *self,
                b as int,
                (latent_h, latent_w),
                cond_grids@,
                residuals,
                control_scale,
                r,
            ),
    {
        let modulate: Option<Vec<i32>> = if self.zero_cond_t && cond_grids.len() > 0 {
            Some(build_modulate_index(b, latent_h, latent_w, cond_grids))
        } else {
            None
        };
        let mut shapes: Vec<(usize, usize)> = Vec::new();
        shapes.push((latent_h, latent_w));
        let mut g: usize = 0;
        assert(cond_grids@.take(0) =~= Seq::empty());
        assert(shapes@ =~= position_grids((latent_h, latent_w), cond_grids@.take(0)));
        while g < cond_grids.len()
            invariant
                g <= cond_grids@.len(),
                shapes@ == position_grids((latent_h, latent_w), cond_grids@.take(g as int)),
            decreases cond_grids@.len() - g,
        {
            shapes.push(cond_grids[g]);
            assert(shapes@ =~= position_grids((latent_h, latent_w), cond_grids@.take(g + 1)));
            g = g + 1;
        }
        assert(cond_grids@.take(cond_grids@.len() as int) =~= cond_grids@);
        let assigned: Vec<Option<usize>> = assign_residuals(self.num_layers, residuals);
        let ghost goal = scaled_residuals(self.num_layers as nat, residuals, control_scale);
        let mut scaled: Vec<Option<Residual>> = Vec::new();
        let mut i: usize = 0;
        while i < assigned.len()
            invariant
                i <= assigned@.len() == goal.len(),
                assigned@ == block_residuals(self.num_layers as nat, residuals),
                goal == scaled_residuals(self.num_layers as nat, residuals, control_scale),
                scaled@ == goal.take(i as int),
            decreases assigned@.len() - i,
        {
            match assigned[i] {
                Some(index) => {
                    scaled.push(Some(Residual { index, scale: control_scale }));
                },
                None => {
                    scaled.push(None);
                },
            }
            assert(scaled@ =~= goal.take(i + 1));
            i = i + 1;
        }
        assert(goal.take(goal.len() as int) =~= goal);
        ForwardPlan { modulate, shapes, residuals: scaled }
    }

    /// Plan a forward pass without a control branch.
    pub fn forward(
        &self,
        b: usize,
        latent_h: usize,
        latent_w: usize,
        cond_grids: &[(usize, usize)],
    ) -> (r: ForwardPlan)
        requires
            latent_h * latent_w + grid_tokens(cond_grids@, cond_grids@.len()) <= usize::MAX,
            b * (latent_h * latent_w + grid_tokens(cond_grids@, cond_grids@.len())) <= usize::MAX,
        ensures
            plans_pass(
                *self,
                b as int,
                (latent_h, latent_w),
                cond_grids@,
                None,
                Binary32 { bits: 0 },
                r,
            ),
            r.residuals@.len() == self.num_layers,
            forall|i: int| 0 <= i < r.residuals@.len() ==> (#[trigger] r.residuals@[i]) is None,
    {
        self.forward_control(b, latent_h, latent_w, cond_grids, None, Binary32 { bits: 0 })
    }
}

/// Every text token is valid.
pub open spec fn all_valid(mask: Seq<i32>) -> bool {
    forall|i: int| 0 <= i < mask.len() ==> #[trigger] mask[i] == 1
}

/// The additive mask over text and image keys: text keys are masked where the text is padded,
/// image keys never.
pub open spec fn joint_mask(mask: Seq<i32>, rows: int, txt: int, img: int) -> Seq<Binary32> {
    Seq::new(
        (rows * (txt + img)) as nat,
        |i: int|
            {
                let (row, j) = (i / (txt + img), i % (txt + img));
                if j >= txt || mask[row * txt + j] == 1 {
                    Binary32 { bits: 0 }
                } else {
                    Binary32 { bits: MASK_FILL }
                }
            },
    )
}

fn is_all_valid(mask: &[i32]) -> (r: bool)
    ensures
        r == all_valid(mask@),
{
    let mut i: usize = 0;
    while i < mask.len()
        invariant
            i <= mask@.len(),
            forall|k: int| 0 <= k < i ==> #[trigger] mask@[k] == 1,
        decreases mask@.len() - i,
    {
        if mask[i] != 1 {
            return false;
        }
        i = i + 1;
    }
    true
}

/// The additive mask for `rows` texts of `txt` tokens beside `img` image tokens; none where no
/// text token is padded.
pub fn build_joint_mask(txt_mask: Option<&[i32]>, rows: usize, txt: usize, img: usize) -> (r: Option<
    Vec<Binary32>,
>)
    requires
        txt_mask matches Some(m) ==> m@.len() == rows * txt,
        txt + img <= usize::MAX,
        rows * (txt + img) <= usize::MAX,
    ensures
        match r {
            Some(data) => {
                &&& txt_mask matches Some(m)
                &&& !all_valid(m@)
                &&& data@ == joint_mask(m@, rows as int, txt as int, img as int)
            },
            None => txt_mask is None || all_valid(txt_mask->Some_0@),
        },
{
    let m: &[i32] = match txt_mask {
        Some(m) => m,
        None => {
            return None;
        },
    };
    if is_all_valid(m) {
        return None;
    }
    let joint: usize = txt + img;
    let len: usize = m.len();
    let ghost goal = joint_mask(m@, rows as int, txt as int, img as int);
    let mut data: Vec<Binary32> = Vec::new();
    let mut row: usize = 0;
    assert(0 * joint == 0);
    while row < rows
        invariant
            row <= rows,
            joint == txt + img,
            rows * joint <= usize::MAX,
            m@.len() == rows * txt,
            m@.len() == len,
            goal == joint_mask(m@, rows as int, txt as int, img as int),
            data@.len() == row * joint,
            data@ == goal.take(row * joint),
        decreases rows - row,
    {
        let ghost base = row * joint;
        proof {
            assert(0 <= base && base + joint <= rows * joint && row * txt + txt <= rows * txt && 0
                <= row * txt) by (nonlinear_arith)
                requires
                    base == row * joint,
                    0 <= row,
                    row + 1 <= rows,
                    joint >= 0,
                    txt >= 0,
            ;
        }
        let mut j: usize = 0;
        while j < joint
            invariant
                j <= joint,
                joint == txt + img,
                base == row * joint,
                0 <= base,
                base + joint <= rows * joint <= usize::MAX,
                0 <= row * txt,
                row * txt + txt <= m@.len(),
                m@.len() <= len <= usize::MAX,
                goal == joint_mask(m@, rows as int, txt as int, img as int),
                data@.len() == base + j,
                data@ == goal.take(base + j),
            decreases joint - j,
        {
            let valid: bool = j >= txt || m[row * txt + j] == 1;
            let value: Binary32 = if valid {
                Binary32 { bits: 0 }
            } else {
                Binary32 { bits: MASK_FILL }
            };
            data.push(value);
            proof {
                lemma_fundamental_div_mod_converse(base + j, joint as int, row as int, j as int);
                assert(goal[base + j] == value);
                assert(data@ =~= goal.take(base + j + 1));
            }
            j = j + 1;
        }
        row = row + 1;
        assert(row * joint == base + joint) by (nonlinear_arith)
            requires
                base == (row - 1) * joint,
        ;
    }
    assert(goal.take(rows * joint) =~= goal);
    Some(data)
}

/// The block that an adapter path leads to.
pub open spec fn routed(path: Seq<&str>, layers: int) -> Option<usize> {
    if path.len() >= 2 && path[0]@ == "transformer_blocks"@ {
        match parsed(path[1]@) {
            Some(n) => if n < layers {
                Some(n)
            } else {
                None
            },
            None => None,
        }
    } else {
        None
    }
}

/// The block that an adapter path leads to; what follows the first two parts names the module
/// inside the block.
pub fn adaptable_block(path: &[&str], layers: usize) -> (r: Option<usize>)
    ensures
        r == routed(path@, layers as int),
{
    if path.len() < 2 || !same_text(path[0], "transformer_blocks") {
        return None;
    }
    match parse_usize(path[1]) {
        Some(n) => if n < layers {
            Some(n)
        } else {
            None
        },
        None => None,
    }
}

/// The name of block `i`.
pub open spec fn block_name(i: nat) -> Seq<char> {
    "transformer_blocks."@ + digits(i)
}

fn block_string(i: usize) -> (r: String)
    ensures
        r@ == block_name(i as nat),
{
    let mut r: String = "transformer_blocks.".to_owned();
    r.append(decimal(i as u64).as_str());
    r
}

/// The adapter path of a block leads to that block.
pub proof fn blocks_are_found(path: Seq<&str>, layers: int, i: usize)
    requires
        path.len() >= 2,
        path[0]@ == "transformer_blocks"@,
        path[1]@ == digits(i as nat),
        i < layers,
    ensures
        routed(path, layers) == Some(i),
{
    decimal_round_trip(i as nat);
}

/// The adapter paths of the first `n` blocks, each below the name of its block.
pub open spec fn block_paths(blocks: Seq<Vec<String>>, n: nat) -> Seq<Seq<char>>
    decreases n,
{
    if n == 0 {
        Seq::empty()
    } else {
        block_paths(blocks, (n - 1) as nat) + Seq::new(
            blocks[n - 1]@.len(),
            |j: int| block_name((n - 1) as nat) + "."@ + blocks[n - 1]@[j]@,
        )
    }
}

/// The characters of texts.
pub open spec fn texts(v: Seq<String>) -> Seq<Seq<char>> {
    Seq::new(v.len(), |i: int| v[i]@)
}

/// The adapter paths of the transformer, from those of its blocks.
pub fn adaptable_paths(blocks: &[Vec<String>]) -> (r: Vec<String>)
    ensures
        texts(r@) == block_paths(blocks@, blocks@.len()),
{
    let mut r: Vec<String> = Vec::new();
    let mut i: usize = 0;
    assert(texts(r@) =~= Seq::empty());
    while i < blocks.len()
        invariant
            i <= blocks@.len(),
            texts(r@) == block_paths(blocks@, i as nat),
        decreases blocks@.len() - i,
    {
        let ghost before = texts(r@);
        let ghost all = Seq::new(
            blocks@[i as int]@.len(),
            |j: int| block_name(i as nat) + "."@ + blocks@[i as int]@[j]@,
        );
        let mut j: usize = 0;
        assert(before + all.take(0) =~= before);
        while j < blocks[i].len()
            invariant
                i < blocks@.len(),
                j <= blocks@[i as int]@.len(),
                all == Seq::new(
                    blocks@[i as int]@.len(),
                    |j: int| block_name(i as nat) + "."@ + blocks@[i as int]@[j]@,
                ),
                texts(r@) == before + all.take(j as int),
            decreases blocks@[i as int]@.len() - j,
        {
            let ghost prior = r@;
            let mut path: String = block_string(i);
            path.append(".");
            path.append(blocks[i][j].as_str());
            assert(path@ == all[j as int]);
            r.push(path);
            assert(texts(r@) =~= texts(prior).push(all[j as int]));
            assert(all.take(j + 1) =~= all.take(j as int).push(all[j as int]));
            assert(texts(r@) =~= before + all.take(j + 1));
            j = j + 1;
        }
        assert(all.take(all.len() as int) =~= all);
        i = i + 1;
    }
    r
}

/// The two linear maps of a feed-forward module.
#[derive(Clone, Copy, Debug, PartialEq, Eq, Structural)]
pub enum FeedForwardPart {
    MlpIn,
    MlpOut,
}

/// The part that an adapter path names.
pub open spec fn feed_forward_part(path: Seq<&str>) -> Option<FeedForwardPart> {
    if path.len() == 3 && path[0]@ == "net"@ && path[1]@ == "0"@ && path[2]@ == "proj"@ {
        Some(FeedForwardPart::MlpIn)
    } else if path.len() == 2 && path[0]@ == "net"@ && path[1]@ == "2"@ {
        Some(FeedForwardPart::MlpOut)
    } else {
        None
    }
}

/// The part of a feed-forward module that an adapter path names.
pub fn feed_forward_target(path: &[&str]) -> (r: Option<FeedForwardPart>)
    ensures
        r == feed_forward_part(path@),
{
    if path.len() == 3 && same_text(path[0], "net") && same_text(path[1], "0") && same_text(
        path[2],
        "proj",
    ) {
        Some(FeedForwardPart::MlpIn)
    } else if path.len() == 2 && same_text(path[0], "net") && same_text(path[1], "2") {
        Some(FeedForwardPart::MlpOut)
    } else {
        None
    }
}

/// The modules that a transformer is made of, in the order in which their weights are read.
pub open spec fn module_keys(prefix: Seq<char>, layers: nat) -> Seq<Seq<char>> {
    Seq::new(layers, |i: int| joined(prefix, block_name(i as nat))) + seq![
        joined(prefix, "img_in"@),
        joined(prefix, "txt_norm.weight"@),
        joined(prefix, "txt_in"@),
        joined(prefix, "time_text_embed"@),
        joined(prefix, "norm_out"@),
        joined(prefix, "proj_out"@),
    ]
}

/// The names under which a transformer looks up the weights of its modules.
pub fn transformer_modules(prefix: &str, layers: usize) -> (r: Vec<String>)
    ensures
        texts(r@) == module_keys(prefix@, layers as nat),
{
    let mut r: Vec<String> = Vec::new();
    let mut i: usize = 0;
    while i < layers
        invariant
            i <= layers,
            r@.len() == i,
            forall|k: int|
                0 <= k < i ==> (#[trigger] r@[k])@ == joined(prefix@, block_name(k as nat)),
        decreases layers - i,
    {
        let name: String = block_string(i);
        r.push(join(prefix, name.as_str()));
        i = i + 1;
    }
    r.push(join(prefix, "img_in"));
    r.push(join(prefix, "txt_norm.weight"));
    r.push(join(prefix, "txt_in"));
    r.push(join(prefix, "time_text_embed"));
    r.push(join(prefix, "norm_out"));
    r.push(join(prefix, "proj_out"));
    assert(texts(r@) =~= module_keys(prefix@, layers as nat));
    r
}

/// The modules of the control branch, in the order in which their weights are read: each block is
/// followed by the projection of its residual.
pub open spec fn control_module_keys(prefix: Seq<char>, layers: nat) -> Seq<Seq<char>> {
    Seq::new(
        2 * layers,
        |i: int|
            joined(
                prefix,
                if i % 2 == 0 {
                    block_name((i / 2) as nat)
                } else {
                    "controlnet_blocks."@ + digits((i / 2) as nat)
                },
            ),
    ) + seq![
        joined(prefix, "img_in"@),
        joined(prefix, "txt_norm.weight"@),
        joined(prefix, "txt_in"@),
        joined(prefix, "time_text_embed"@),
        joined(prefix, "controlnet_x_embedder"@),
    ]
}

/// The names under which the control branch looks up the weights of its modules.
pub fn control_modules(prefix: &str, layers: usize) -> (r: Vec<String>)
    ensures
        texts(r@) == control_module_keys(prefix@, layers as nat),
{
    let mut r: Vec<String> = Vec::new();
    let mut i: usize = 0;
    while i < layers
        invariant
            i <= layers,
            r@.len() == 2 * i,
            forall|k: int|
                0 <= k < 2 * i ==> (#[trigger] r@[k])@ == joined(
                    prefix@,
                    if k % 2 == 0 {
                        block_name((k / 2) as nat)
                    } else {
                        "controlnet_blocks."@ + digits((k / 2) as nat)
                    },
                ),
        decreases layers - i,
    {
        let name: String = block_string(i);
        r.push(join(prefix, name.as_str()));
        let mut residual: String = "controlnet_blocks.".to_owned();
        residual.append(decimal(i as u64).as_str());
        r.push(join(prefix, residual.as_str()));
        i = i + 1;
    }
    r.push(join(prefix, "img_in"));
    r.push(join(prefix, "txt_norm.weight"));
    r.push(join(prefix, "txt_in"));
    r.push(join(prefix, "time_text_embed"));
    r.push(join(prefix, "controlnet_x_embedder"));
    assert(texts(r@) =~= control_module_keys(prefix@, layers as nat));
    r
}

/// The blocks are shared out evenly, in order: each residual goes to as few blocks as cover all of
/// them, the first to the first blocks, the next to the next.
pub proof fn residuals_go_to_their_blocks(layers: int, residuals: int, i: int)
    requires
        0 <= i < layers,
        0 < residuals,
    ensures
        ({
            let n = interval(layers, residuals);
            let r = residual_of(layers, residuals, i);
            &&& n * residuals >= layers
            &&& (n - 1) * residuals < layers
            &&& r * n <= i < (r + 1) * n
        }),
{
    residuals_cover_the_blocks(layers, residuals, i);
    let n = interval(layers, residuals);
    let q = layers / residuals;
    vstd::arithmetic::div_mod::lemma_fundamental_div_mod(layers, residuals);
    assert(residuals * q == q * residuals) by (nonlinear_arith);
    assert((q + 1) * residuals == q * residuals + residuals) by (nonlinear_arith);
    assert((q - 1) * residuals == q * residuals - residuals) by (nonlinear_arith);
    vstd::arithmetic::div_mod::lemma_fundamental_div_mod(i, n);
    let r = i / n;
    assert(n * r == r * n) by (nonlinear_arith);
    assert((r + 1) * n == r * n + n) by (nonlinear_arith);
}

/// What a pass goes by: every block gets its residual at the scale that was asked for, or none gets
/// one; the grid of the noise comes first and the references follow; tokens are told apart only by a
/// model that does so and only where there are references.
pub proof fn passes_are_planned(
    cfg: QwenTransformerConfig,
    b: int,
    noise: (usize, usize),
    grids: Seq<(usize, usize)>,
    residuals: Option<usize>,
    scale: Binary32,
    plan: ForwardPlan,
    i: int,
)
    requires
        plans_pass(cfg, b, noise, grids, residuals, scale, plan),
        residuals is Some ==> 0 < residuals->0,
        0 <= i < cfg.num_layers,
    ensures
        plan.residuals@.len() == cfg.num_layers,
        residuals is None ==> plan.residuals@[i] is None,
        residuals is Some ==> plan.residuals@[i] is Some && plan.residuals@[i]->0.scale == scale
            && plan.residuals@[i]->0.index < residuals->0 && {
            let n = plan.residuals@[i]->0.index;
            let each = interval(cfg.num_layers as int, residuals->0 as int);
            n * each <= i < (n + 1) * each
        },
        plan.shapes@.len() == 1 + grids.len(),
        plan.shapes@[0] == noise,
        forall|k: int| 0 <= k < grids.len() ==> plan.shapes@[1 + k] == #[trigger] grids[k],
        plan.modulate is Some <==> cfg.zero_cond_t && grids.len() > 0,
{
    if residuals is Some {
        residuals_go_to_their_blocks(cfg.num_layers as int, residuals->0 as int, i);
        residuals_cover_the_blocks(cfg.num_layers as int, residuals->0 as int, i);
    }
}

/// In each row the tokens of the noise come first and are marked zero, and those of the references
/// follow and are marked one.
pub proof fn noise_and_references_are_told_apart(
    rows: int,
    noise: int,
    conditioning: int,
    row: int,
    j: int,
)
    requires
        0 <= row < rows,
        0 <= noise,
        0 <= conditioning,
        0 <= j < noise + conditioning,
    ensures
        ({
            let index = modulate_index(rows, noise, conditioning);
            &&& index.len() == rows * (noise + conditioning)
            &&& 0 <= row * (noise + conditioning) + j < index.len()
            &&& index[row * (noise + conditioning) + j] == if j < noise {
                0i32
            } else {
                1i32
            }
        }),
{
    let n = noise + conditioning;
    let i = row * n + j;
    vstd::arithmetic::div_mod::lemma_fundamental_div_mod_converse(i, n, row, j);
    assert(0 <= i < rows * n) by (nonlinear_arith)
        requires
            i == row * n + j,
            0 <= row < rows,
            0 <= j < n,
    ;
}

/// A grid holds a token for each of its places.
pub proof fn grids_add_their_tokens(grids: Seq<(usize, usize)>, n: nat)
    requires
        n < grids.len(),
    ensures
        grid_tokens(grids, 0) == 0,
        grid_tokens(grids, n + 1) == grid_tokens(grids, n) + grids[n as int].0 * grids[n as int].1,
{
}

/// Every row attends to all of its image tokens and to the text tokens marked one; the others get
/// minus one thousand million.
pub proof fn masked_text_is_not_attended(
    mask: Seq<i32>,
    rows: int,
    txt: int,
    img: int,
    row: int,
    j: int,
)
    requires
        0 <= row < rows,
        0 <= txt,
        0 <= img,
        0 <= j < txt + img,
    ensures
        ({
            let m = joint_mask(mask, rows, txt, img);
            let at = row * (txt + img) + j;
            &&& m.len() == rows * (txt + img)
            &&& 0 <= at < m.len()
            &&& j >= txt ==> m[at].bits == 0
            &&& j < txt && mask[row * txt + j] == 1 ==> m[at].bits == 0
            &&& j < txt && mask[row * txt + j] != 1 ==> m[at].bits == 0xce6e_6b28
        }),
{
    let n = txt + img;
    let i = row * n + j;
    vstd::arithmetic::div_mod::lemma_fundamental_div_mod_converse(i, n, row, j);
    assert(0 <= i < rows * n) by (nonlinear_arith)
        requires
            i == row * n + j,
            0 <= row < rows,
            0 <= j < n,
    ;
}

/// The published transformer in numbers; the edit model differs only in telling references apart.
pub proof fn the_published_transformer(edit: bool)
    ensures
        ({
            let c = QwenTransformerConfig::published(edit);
            &&& c.in_channels == 64 && c.out_channels == 16 && c.patch_size == 2
            &&& c.num_layers == 60 && c.num_heads == 24 && c.head_dim == 128
            &&& c.num_heads * c.head_dim == 3072
            &&& c.in_channels == c.out_channels * c.patch_size * c.patch_size
            &&& c.joint_attention_dim == 3584
            &&& c.txt_norm_eps.bits == 0x3586_37bd
            &&& c.zero_cond_t == edit
        }),
{
}

/// Only the blocks of the transformer can be adapted, by their number.
pub proof fn only_blocks_are_adaptable(path: Seq<&str>, layers: int)
    ensures
        routed(path, layers) is Some ==> path.len() >= 2 && path[0]@ == "transformer_blocks"@
            && parsed(path[1]@) == routed(path, layers) && routed(path, layers)->0 < layers,
        path.len() >= 2 && path[0]@ == "transformer_blocks"@ && parsed(path[1]@) is Some && parsed(
            path[1]@,
        )->0 < layers ==> routed(path, layers) == parsed(path[1]@),
{
}

/// The first projection of a feed-forward goes by `net.0.proj` and the second by `net.2`.
pub proof fn feed_forward_parts_are_named(path: Seq<&str>)
    ensures
        feed_forward_part(path) == Some(FeedForwardPart::MlpIn) <==> path.len() == 3 && path[0]@
            == "net"@ && path[1]@ == "0"@ && path[2]@ == "proj"@,
        feed_forward_part(path) == Some(FeedForwardPart::MlpOut) <==> path.len() == 2 && path[0]@
            == "net"@ && path[1]@ == "2"@,
{
}

/// Every path of a block is listed below the name of the block.
pub proof fn paths_of_blocks_are_listed(blocks: Seq<Vec<String>>, n: nat, i: int, j: int)
    requires
        0 <= i < n <= blocks.len(),
        0 <= j < blocks[i]@.len(),
    ensures
        block_paths(blocks, n).contains(
            "transformer_blocks."@ + digits(i as nat) + "."@ + blocks[i]@[j]@,
        ),
    decreases n,
{
    let goal = "transformer_blocks."@ + digits(i as nat) + "."@ + blocks[i]@[j]@;
    let before = block_paths(blocks, (n - 1) as nat);
    let all = block_paths(blocks, n);
    if i < n - 1 {
        paths_of_blocks_are_listed(blocks, (n - 1) as nat, i, j);
        let k = before.index_of(goal);
        assert(all[k] == goal);
    } else {
        assert(all[before.len() + j] == goal);
    }
}

/// The modules of a transformer: its blocks by number, then what stands before and behind them.
pub proof fn modules_are_named(prefix: Seq<char>, layers: nat, i: int)
    requires
        0 <= i < layers,
    ensures
        ({
            let m = module_keys(prefix, layers);
            let c = control_module_keys(prefix, layers);
            let n = layers as int;
            &&& m.len() == layers + 6
            &&& m[i] == joined(prefix, "transformer_blocks."@ + digits(i as nat))
            &&& m[n] == joined(prefix, "img_in"@)
            &&& m[n + 1] == joined(prefix, "txt_norm.weight"@)
            &&& m[n + 2] == joined(prefix, "txt_in"@)
            &&& m[n + 3] == joined(prefix, "time_text_embed"@)
            &&& m[n + 4] == joined(prefix, "norm_out"@)
            &&& m[n + 5] == joined(prefix, "proj_out"@)
            &&& c.len() == 2 * layers + 5
            &&& c[2 * i] == joined(prefix, "transformer_blocks."@ + digits(i as nat))
            &&& c[2 * i + 1] == joined(prefix, "controlnet_blocks."@ + digits(i as nat))
            &&& c[2 * n] == joined(prefix, "img_in"@)
            &&& c[2 * n + 1] == joined(prefix, "txt_norm.weight"@)
            &&& c[2 * n + 2] == joined(prefix, "txt_in"@)
            &&& c[2 * n + 3] == joined(prefix, "time_text_embed"@)
            &&& c[2 * n + 4] == joined(prefix, "controlnet_x_embedder"@)
        }),
{
}

/// A residual is added place by place, times its scale.
pub proof fn residuals_are_scaled_and_added(
    hidden: Seq<Binary32>,
    residual: Seq<Binary32>,
    scale: Binary32,
    p: int,
)
    requires
        0 <= p < hidden.len(),
    ensures
        residual_added(hidden, residual, scale).len() == hidden.len(),
        residual_added(hidden, residual, scale)[p] == hidden[p].plus(residual[p].times(scale)),
{
}

/// Where a pass tells tokens apart, those of the noise grid are marked zero and those of the
/// references one, in every row.
pub proof fn passes_mark_their_references(
    cfg: QwenTransformerConfig,
    b: int,
    noise: (usize, usize),
    grids: Seq<(usize, usize)>,
    residuals: Option<usize>,
    scale: Binary32,
    plan: ForwardPlan,
    row: int,
    j: int,
)
    requires
        plans_pass(cfg, b, noise, grids, residuals, scale, plan),
        plan.modulate is Some,
        0 <= row < b,
        0 <= j < noise.0 * noise.1 + grid_tokens(grids, grids.len()),
    ensures
        ({
            let index = plan.modulate->0@;
            let n = noise.0 * noise.1 + grid_tokens(grids, grids.len());
            &&& index.len() == b * n
            &&& 0 <= row * n + j < index.len()
            &&& index[row * n + j] == if j < noise.0 * noise.1 {
                0i32
            } else {
                1i32
            }
        }),
{
    let tokens = noise.0 * noise.1;
    assert(0 <= tokens) by (nonlinear_arith)
        requires
            tokens == noise.0 * noise.1,
            0 <= noise.0,
            0 <= noise.1,
    ;
    grids_hold_tokens(grids, grids.len());
    noise_and_references_are_told_apart(b, tokens, grid_tokens(grids, grids.len()), row, j);
}

proof fn grids_hold_tokens(grids: Seq<(usize, usize)>, n: nat)
    requires
        n <= grids.len(),
    ensures
        0 <= grid_tokens(grids, n),
    decreases n,
{
    if n > 0 {
        grids_hold_tokens(grids, (n - 1) as nat);
        let (h, w) = grids[n - 1];
        assert(0 <= h * w) by (nonlinear_arith)
            requires
                0 <= h,
                0 <= w,
        ;
    }
}

} // verus!
