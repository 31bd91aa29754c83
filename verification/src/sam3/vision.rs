//! The vision encoder: which layers attend where, how learned positions cover the grid, and how
//! the pyramid rescales.
use super::config::{divides_ok, whole_quotient, Sam3VisionConfig};
use crate::binary32::Binary32;
use crate::layout::{coordinates_in_range, offset, offset_in_range, volume, Grid};
use crate::text::{decimal, digits};
use vstd::prelude::*;
use vstd::string::{StrSliceExecFns, StringExecFns};

verus! {

/// How a layer attends.
#[derive(Clone, Copy, Debug, PartialEq, Eq, Structural)]
pub struct LayerPlan {
    /// The side of the attention windows; zero for attention over the whole grid.
    pub window: i32,
    /// The side of the grid of its rotary positions.
    pub rope_end: i32,
    /// Rotary positions are scaled by this, divided by `rope_scale_den`.
    pub rope_scale_num: i32,
    pub rope_scale_den: i32,
}

/// The plan of layer `i`: a windowed layer has positions of its window; a global one has positions
/// of the grid, scaled so that they span the range of a window.
pub open spec fn layer_plan(cfg: Sam3VisionConfig, i: int) -> LayerPlan {
    let grid = whole_quotient(cfg.image_size as int, cfg.patch_size as int) as i32;
    if cfg.global_attn_indexes@.contains(i as i32) {
        LayerPlan {
            window: 0,
            rope_end: grid,
            rope_scale_num: cfg.window_size,
            rope_scale_den: grid,
        }
    } else {
        LayerPlan {
            window: cfg.window_size,
            rope_end: cfg.window_size,
            rope_scale_num: 1,
            rope_scale_den: 1,
        }
    }
}

fn is_global(indexes: &[i32], i: i32) -> (r: bool)
    ensures
        r == indexes@.contains(i),
{
    let mut k: usize = 0;
    while k < indexes.len()
        invariant
            k <= indexes@.len(),
            forall|j: int| 0 <= j < k ==> indexes@[j] != i,
        decreases indexes@.len() - k,
    {
        if indexes[k] == i {
            return true;
        }
        k = k + 1;
    }
    false
}

/// The plan of every layer.
pub fn layer_plans(cfg: &Sam3VisionConfig) -> (r: Vec<LayerPlan>)
    requires
        divides_ok(cfg.image_size, cfg.patch_size),
    ensures
        r@.len() == (if cfg.num_hidden_layers > 0 {
            cfg.num_hidden_layers as int
        } else {
            0
        }),
        forall|i: int| 0 <= i < r@.len() ==> #[trigger] r@[i] == layer_plan(*cfg, i),
{
    let grid: i32 = cfg.grid();
    let mut r: Vec<LayerPlan> = Vec::new();
    let mut i: i32 = 0;
    while i < cfg.num_hidden_layers
        invariant
            0 <= i,
            cfg.num_hidden_layers > 0 ==> i <= cfg.num_hidden_layers,
            cfg.num_hidden_layers <= 0 ==> i == 0,
            grid == whole_quotient(cfg.image_size as int, cfg.patch_size as int),
            r@.len() == i,
            forall|k: int| 0 <= k < i ==> #[trigger] r@[k] == layer_plan(*cfg, k),
        decreases cfg.num_hidden_layers - i,
    {
        if is_global(&cfg.global_attn_indexes, i) {
            r.push(
                LayerPlan {
                    window: 0,
                    rope_end: grid,
                    rope_scale_num: cfg.window_size,
                    rope_scale_den: grid,
                },
            );
        } else {
            r.push(
                LayerPlan {
                    window: cfg.window_size,
                    rope_end: cfg.window_size,
                    rope_scale_num: 1,
                    rope_scale_den: 1,
                },
            );
        }
        i = i + 1;
    }
    r
}

/// Why positions cannot be tiled.
#[derive(Clone, Copy, Debug, PartialEq, Eq, Structural)]
pub enum VisionError {
    /// The token grid is not a multiple of the grid that positions were learned on.
    GridNotMultiple { grid: usize, pretrain_grid: usize },
}

impl VisionError {
    /// The complaint in words.
    pub open spec fn text(self) -> Seq<char> {
        match self {
            VisionError::GridNotMultiple { grid, pretrain_grid } => "sam3 vision: token grid "@
                + digits(grid as nat) + " is not a multiple of the position-embedding grid "@
                + digits(pretrain_grid as nat) + " (non-exact tiling not implemented)"@,
        }
    }

    /// This complaint in words.
    pub fn message(&self) -> (r: String)
        ensures
            r@ == self.text(),
    {
        match self {
            VisionError::GridNotMultiple { grid, pretrain_grid } => {
                let mut r: String = "sam3 vision: token grid ".to_owned();
                r.append(decimal(*grid as u64).as_str());
                r.append(" is not a multiple of the position-embedding grid ");
                r.append(decimal(*pretrain_grid as u64).as_str());
                r.append(" (non-exact tiling not implemented)");
                r
            },
        }
    }
}

/// The positions repeat over the grid in both directions.
pub open spec fn tiled<T>(p: Grid<T>, grid: int, r: Grid<T>) -> bool {
    &&& r.wf()
    &&& r.n == p.n
    &&& r.h == grid
    &&& r.w == grid
    &&& r.c == p.c
    &&& forall|i: int, y: int, x: int, k: int|
        r.holds(i, y, x, k) ==> #[trigger] r.at(i, y, x, k) == p.at(
            i,
            y % (p.h as int),
            x % (p.w as int),
            k,
        )
}

/// Tile learned positions over a token grid; refused where the grid is not a multiple of theirs.
pub fn tiled_pos<T: Copy>(p: &Grid<T>, grid: usize) -> (r: Result<Grid<T>, VisionError>)
    requires
        p.wf(),
        p.n == 1,
        p.h == p.w,
        0 < p.h,
        0 < p.c,
        volume(1, grid as int, grid as int, p.c as int) <= usize::MAX,
    ensures
        match r {
            Ok(g) => grid as int % p.h as int == 0 && tiled(*p, grid as int, g),
            Err(e) => grid as int % p.h as int != 0 && e == (VisionError::GridNotMultiple {
                grid,
                pretrain_grid: p.h,
            }),
        },
{
    let pg: usize = p.h;
    if grid % pg != 0 {
        return Err(VisionError::GridNotMultiple { grid, pretrain_grid: pg });
    }
    proof {
        let (g, c) = (grid as int, p.c as int);
        assert((1 * g) * g == g * g);
        assert(0 <= g * g <= (g * g) * c) by (nonlinear_arith)
            requires
                0 <= g,
                1 <= c,
        ;
    }
    let total: usize = grid * grid * p.c;
    let mut data: Vec<T> = Vec::new();
    let mut o: usize = 0;
    while o < total
        invariant
            o <= total,
            p.wf(),
            p.n == 1,
            p.h == p.w == pg,
            0 < pg,
            0 < p.c,
            total == volume(1, grid as int, grid as int, p.c as int),
            data@.len() == o,
            forall|t: int|
                0 <= t < o ==> #[trigger] data@[t] == p.at(
                    t / (p.c as int) / (grid as int) / (grid as int),
                    ((t / (p.c as int) / (grid as int)) % (grid as int)) % (pg as int),
                    ((t / (p.c as int)) % (grid as int)) % (pg as int),
                    t % (p.c as int),
                ),
        decreases total - o,
    {
        proof {
            coordinates_in_range(1, grid as int, grid as int, p.c as int, o as int);
        }
        let cell: usize = o / p.c;
        let y: usize = (cell / grid) % grid;
        let x: usize = cell % grid;
        let value: T = p.get(cell / grid / grid, y % pg, x % pg, o % p.c);
        data.push(value);
        o = o + 1;
    }
    let r = Grid { n: 1, h: grid, w: grid, c: p.c, data };
    proof {
        assert forall|i: int, y: int, x: int, k: int|
            r.holds(i, y, x, k) implies #[trigger] r.at(i, y, x, k) == p.at(
            i,
            y % (p.h as int),
            x % (p.w as int),
            k,
        ) by {
            offset_in_range(1, grid as int, grid as int, p.c as int, i, y, x, k);
            let o = offset(grid as int, grid as int, p.c as int, i, y, x, k);
            assert(r.data@[o] == p.at(i, y % (pg as int), x % (pg as int), k));
        }
    }
    Ok(r)
}

/// How a pyramid level is rescaled.
#[derive(Clone, Copy, Debug, PartialEq, Eq, Structural)]
pub enum FpnBranch {
    /// Two upscaling convolutions, with an activation between them.
    UpTwice,
    /// One upscaling convolution.
    UpOnce,
    /// No rescaling.
    Same,
    /// Pooling by two.
    Down,
}

/// The smallest and the first too large scale of each rescaled level: a scale is rounded to the
/// nearest half.
pub const UP_TWICE_FROM: u32 = 0x4070_0000;

pub const UP_TWICE_BELOW: u32 = 0x4088_0000;

pub const UP_ONCE_FROM: u32 = 0x3fe0_0000;

pub const UP_ONCE_BELOW: u32 = 0x4010_0000;

pub const DOWN_FROM: u32 = 0x3e80_0000;

pub const DOWN_BELOW: u32 = 0x3f40_0000;

/// The scale lies within bounds, the lower one included.
pub open spec fn scale_within(scale: Binary32, from: u32, below: u32) -> bool {
    (Binary32 { bits: from }).at_most(scale) && scale.less(Binary32 { bits: below })
}

/// Choose the branch of a pyramid level by its scale.
pub fn fpn_branch(scale: &Binary32) -> (r: FpnBranch)
    ensures
        r == (if scale_within(*scale, UP_TWICE_FROM, UP_TWICE_BELOW) {
            FpnBranch::UpTwice
        } else if scale_within(*scale, UP_ONCE_FROM, UP_ONCE_BELOW) {
            FpnBranch::UpOnce
        } else if scale_within(*scale, DOWN_FROM, DOWN_BELOW) {
            FpnBranch::Down
        } else {
            FpnBranch::Same
        }),
        r is UpTwice <==> 0x4070_0000 <= scale.bits < 0x4088_0000,
        r is UpOnce <==> 0x3fe0_0000 <= scale.bits < 0x4010_0000,
        r is Down <==> 0x3e80_0000 <= scale.bits < 0x3f40_0000,
{
    if scale.ge(&Binary32 { bits: UP_TWICE_FROM }) && scale.lt(
        &Binary32 { bits: UP_TWICE_BELOW },
    ) {
        FpnBranch::UpTwice
    } else if scale.ge(&Binary32 { bits: UP_ONCE_FROM }) && scale.lt(
        &Binary32 { bits: UP_ONCE_BELOW },
    ) {
        FpnBranch::UpOnce
    } else if scale.ge(&Binary32 { bits: DOWN_FROM }) && scale.lt(&Binary32 { bits: DOWN_BELOW }) {
        FpnBranch::Down
    } else {
        FpnBranch::Same
    }
}

/// A layer attends within windows unless it is listed as global: then it has no window, its positions
/// span the whole grid, and they are scaled from a window to the grid.
pub proof fn listed_layers_attend_globally(cfg: Sam3VisionConfig, i: int)
    requires
        0 <= i <= i32::MAX,
        0 <= cfg.image_size,
        0 < cfg.patch_size,
    ensures
        ({
            let l = layer_plan(cfg, i);
            let grid = cfg.image_size as int / cfg.patch_size as int;
            let global = cfg.global_attn_indexes@.contains(i as i32);
            &&& global ==> l.window == 0 && l.rope_end == grid && l.rope_scale_num
                == cfg.window_size && l.rope_scale_den == grid
            &&& !global ==> l.window == cfg.window_size && l.rope_end == cfg.window_size
                && l.rope_scale_num == 1 && l.rope_scale_den == 1
        }),
{
    assert(0 <= cfg.image_size as int / cfg.patch_size as int <= cfg.image_size)
        by (nonlinear_arith)
        requires
            0 <= cfg.image_size,
            0 < cfg.patch_size,
    ;
}

/// A tiled table repeats itself in both directions.
pub proof fn tiles_repeat<T>(p: Grid<T>, grid: int, r: Grid<T>, y: int, x: int, k: int)
    requires
        tiled(p, grid, r),
        p.n == 1,
        0 < p.h,
        0 < p.w,
        0 <= y,
        0 <= x,
        y + p.h < grid,
        x + p.w < grid,
        0 <= k < p.c,
    ensures
        r.at(0, y + p.h, x, k) == r.at(0, y, x, k),
        r.at(0, y, x + p.w, k) == r.at(0, y, x, k),
        y < p.h && x < p.w ==> r.at(0, y, x, k) == p.at(0, y, x, k),
{
    let (h, w) = (p.h as int, p.w as int);
    assert(r.holds(0, y + h, x, k) && r.holds(0, y, x + w, k) && r.holds(0, y, x, k));
    vstd::arithmetic::div_mod::lemma_mod_add_multiples_vanish(y, h);
    vstd::arithmetic::div_mod::lemma_mod_add_multiples_vanish(x, w);
    assert(r.at(0, y + h, x, k) == p.at(0, (y + h) % h, x % w, k));
    assert(r.at(0, y, x + w, k) == p.at(0, y % h, (x + w) % w, k));
    if y < h && x < w {
        vstd::arithmetic::div_mod::lemma_small_mod(y as nat, h as nat);
        vstd::arithmetic::div_mod::lemma_small_mod(x as nat, w as nat);
    }
}

/// What is said of a grid that the table of positions does not tile.
pub proof fn untiled_grids_in_words(grid: usize, pretrain_grid: usize)
    ensures
        (VisionError::GridNotMultiple { grid, pretrain_grid }).text() == "sam3 vision: token grid "@
            + digits(grid as nat) + " is not a multiple of the position-embedding grid "@ + digits(
            pretrain_grid as nat,
        ) + " (non-exact tiling not implemented)"@,
{
}

} // verus!
