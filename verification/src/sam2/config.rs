//! Sizes of the image encoder.
use crate::binary32::Binary32;
use vstd::prelude::*;

verus! {

/// Two, as a binary32 pattern.
pub const TWO: u32 = 0x4000_0000;

/// Four, as a binary32 pattern.
pub const FOUR: u32 = 0x4080_0000;

/// The hierarchical trunk.
pub struct HieraConfig {
    pub embed_dim: i32,
    pub num_heads: i32,
    /// The number of blocks per stage.
    pub stages: Vec<i32>,
    /// The blocks that attend globally.
    pub global_att_blocks: Vec<i32>,
    /// The window size per stage.
    pub window_spec: Vec<i32>,
    /// The number of stage boundaries that pool the query.
    pub q_pool: i32,
    pub q_stride: i32,
    /// The factor by which the width grows at a stage boundary.
    pub dim_mul: Binary32,
    /// The factor by which the number of heads grows at a stage boundary.
    pub head_mul: Binary32,
    pub mlp_ratio: Binary32,
    pub image_size: i32,
    pub pos_embed_hw: i32,
}

/// The feature pyramid.
pub struct FpnConfig {
    pub d_model: i32,
    /// Channels per level, the coarsest first.
    pub backbone_channel_list: Vec<i32>,
    /// The levels that receive the level above them.
    pub fpn_top_down_levels: Vec<i32>,
    /// The number of coarsest levels that are dropped.
    pub scalp: i32,
}

/// The image encoder.
pub struct Sam2ImageEncoderConfig {
    pub hiera: HieraConfig,
    pub fpn: FpnConfig,
}

/// The published model sizes.
#[derive(Clone, Copy, Debug, PartialEq, Eq, Structural)]
pub enum Sam2ModelSize {
    Tiny,
    Small,
    BasePlus,
    Large,
}

/// The trunk has these sizes, and the values that all trunks share.
pub open spec fn trunk_is(
    c: HieraConfig,
    embed_dim: i32,
    num_heads: i32,
    stages: Seq<i32>,
    global_att_blocks: Seq<i32>,
    window_spec: Seq<i32>,
) -> bool {
    &&& c.embed_dim == embed_dim
    &&& c.num_heads == num_heads
    &&& c.stages@ == stages
    &&& c.global_att_blocks@ == global_att_blocks
    &&& c.window_spec@ == window_spec
    &&& c.q_pool == 3
    &&& c.q_stride == 2
    &&& c.dim_mul == (Binary32 { bits: TWO })
    &&& c.head_mul == (Binary32 { bits: TWO })
    &&& c.mlp_ratio == (Binary32 { bits: FOUR })
    &&& c.image_size == 1024
    &&& c.pos_embed_hw == 256
}

/// The pyramid has these channels, and the values that all pyramids share.
pub open spec fn pyramid_is(c: FpnConfig, backbone_channel_list: Seq<i32>) -> bool {
    &&& c.d_model == 256
    &&& c.backbone_channel_list@ == backbone_channel_list
    &&& c.fpn_top_down_levels@ == seq![2i32, 3]
    &&& c.scalp == 1
}

/// The encoder of a model size.
pub open spec fn encoder_is(size: Sam2ModelSize, c: Sam2ImageEncoderConfig) -> bool {
    match size {
        Sam2ModelSize::Tiny => {
            &&& trunk_is(
                c.hiera,
                96,
                1,
                seq![1i32, 2, 7, 2],
                seq![5i32, 7, 9],
                seq![8i32, 4, 14, 7],
            )
            &&& pyramid_is(c.fpn, seq![768i32, 384, 192, 96])
        },
        Sam2ModelSize::Small => {
            &&& trunk_is(
                c.hiera,
                96,
                1,
                seq![1i32, 2, 11, 2],
                seq![7i32, 10, 13],
                seq![8i32, 4, 14, 7],
            )
            &&& pyramid_is(c.fpn, seq![768i32, 384, 192, 96])
        },
        Sam2ModelSize::BasePlus => {
            &&& trunk_is(
                c.hiera,
                112,
                2,
                seq![2i32, 3, 16, 3],
                seq![12i32, 16, 20],
                seq![8i32, 4, 14, 7],
            )
            &&& pyramid_is(c.fpn, seq![896i32, 448, 224, 112])
        },
        Sam2ModelSize::Large => {
            &&& trunk_is(
                c.hiera,
                144,
                2,
                seq![2i32, 6, 36, 4],
                seq![23i32, 33, 43],
                seq![8i32, 4, 16, 8],
            )
            &&& pyramid_is(c.fpn, seq![1152i32, 576, 288, 144])
        },
    }
}

fn trunk(
    embed_dim: i32,
    num_heads: i32,
    stages: Vec<i32>,
    global_att_blocks: Vec<i32>,
    window_spec: Vec<i32>,
) -> (c: HieraConfig)
    ensures
        trunk_is(c, embed_dim, num_heads, stages@, global_att_blocks@, window_spec@),
{
    HieraConfig {
        embed_dim,
        num_heads,
        stages,
        global_att_blocks,
        window_spec,
        q_pool: 3,
        q_stride: 2,
        dim_mul: Binary32 { bits: TWO },
        head_mul: Binary32 { bits: TWO },
        mlp_ratio: Binary32 { bits: FOUR },
        image_size: 1024,
        pos_embed_hw: 256,
    }
}

fn pyramid(backbone_channel_list: Vec<i32>) -> (c: FpnConfig)
    ensures
        pyramid_is(c, backbone_channel_list@),
{
    let fpn_top_down_levels: Vec<i32> = vec![2, 3];
    assert(fpn_top_down_levels@ =~= seq![2i32, 3]);
    FpnConfig { d_model: 256, backbone_channel_list, fpn_top_down_levels, scalp: 1 }
}

impl Sam2ImageEncoderConfig {
    pub fn tiny() -> (c: Sam2ImageEncoderConfig)
        ensures
            encoder_is(Sam2ModelSize::Tiny, c),
    {
        let stages: Vec<i32> = vec![1, 2, 7, 2];
        let global: Vec<i32> = vec![5, 7, 9];
        let window: Vec<i32> = vec![8, 4, 14, 7];
        let channels: Vec<i32> = vec![768, 384, 192, 96];
        assert(stages@ =~= seq![1i32, 2, 7, 2]);
        assert(global@ =~= seq![5i32, 7, 9]);
        assert(window@ =~= seq![8i32, 4, 14, 7]);
        assert(channels@ =~= seq![768i32, 384, 192, 96]);
        Sam2ImageEncoderConfig {
            hiera: trunk(96, 1, stages, global, window),
            fpn: pyramid(channels),
        }
    }

    pub fn small() -> (c: Sam2ImageEncoderConfig)
        ensures
            encoder_is(Sam2ModelSize::Small, c),
    {
        let stages: Vec<i32> = vec![1, 2, 11, 2];
        let global: Vec<i32> = vec![7, 10, 13];
        let window: Vec<i32> = vec![8, 4, 14, 7];
        let channels: Vec<i32> = vec![768, 384, 192, 96];
        assert(stages@ =~= seq![1i32, 2, 11, 2]);
        assert(global@ =~= seq![7i32, 10, 13]);
        assert(window@ =~= seq![8i32, 4, 14, 7]);
        assert(channels@ =~= seq![768i32, 384, 192, 96]);
        Sam2ImageEncoderConfig {
            hiera: trunk(96, 1, stages, global, window),
            fpn: pyramid(channels),
        }
    }

    pub fn base_plus() -> (c: Sam2ImageEncoderConfig)
        ensures
            encoder_is(Sam2ModelSize::BasePlus, c),
    {
        let stages: Vec<i32> = vec![2, 3, 16, 3];
        let global: Vec<i32> = vec![12, 16, 20];
        let window: Vec<i32> = vec![8, 4, 14, 7];
        let channels: Vec<i32> = vec![896, 448, 224, 112];
        assert(stages@ =~= seq![2i32, 3, 16, 3]);
        assert(global@ =~= seq![12i32, 16, 20]);
        assert(window@ =~= seq![8i32, 4, 14, 7]);
        assert(channels@ =~= seq![896i32, 448, 224, 112]);
        Sam2ImageEncoderConfig {
            hiera: trunk(112, 2, stages, global, window),
            fpn: pyramid(channels),
        }
    }

    pub fn large() -> (c: Sam2ImageEncoderConfig)
        ensures
            encoder_is(Sam2ModelSize::Large, c),
    {
        let stages: Vec<i32> = vec![2, 6, 36, 4];
        let global: Vec<i32> = vec![23, 33, 43];
        let window: Vec<i32> = vec![8, 4, 16, 8];
        let channels: Vec<i32> = vec![1152, 576, 288, 144];
        assert(stages@ =~= seq![2i32, 6, 36, 4]);
        assert(global@ =~= seq![23i32, 33, 43]);
        assert(window@ =~= seq![8i32, 4, 16, 8]);
        assert(channels@ =~= seq![1152i32, 576, 288, 144]);
        Sam2ImageEncoderConfig {
            hiera: trunk(144, 2, stages, global, window),
            fpn: pyramid(channels),
        }
    }

    /// The encoder of a model size.
    pub fn for_size(size: Sam2ModelSize) -> (c: Sam2ImageEncoderConfig)
        ensures
            encoder_is(size, c),
    {
        match size {
            Sam2ModelSize::Tiny => Self::tiny(),
            Sam2ModelSize::Small => Self::small(),
            Sam2ModelSize::BasePlus => Self::base_plus(),
            Sam2ModelSize::Large => Self::large(),
        }
    }
}

/// The published sizes: widths double from the first stage to the last and are listed backwards for
/// the pyramid, and all sizes share the rest.
pub proof fn the_published_sizes(size: Sam2ModelSize, c: Sam2ImageEncoderConfig)
    requires
        encoder_is(size, c),
    ensures
        ({
            let (h, f) = (c.hiera, c.fpn);
            let (width, heads, stages, global) = match size {
                Sam2ModelSize::Tiny => (96i32, 1i32, seq![1i32, 2, 7, 2], seq![5i32, 7, 9]),
                Sam2ModelSize::Small => (96i32, 1i32, seq![1i32, 2, 11, 2], seq![7i32, 10, 13]),
                Sam2ModelSize::BasePlus => (
                    112i32,
                    2i32,
                    seq![2i32, 3, 16, 3],
                    seq![12i32, 16, 20],
                ),
                Sam2ModelSize::Large => (144i32, 2i32, seq![2i32, 6, 36, 4], seq![23i32, 33, 43]),
            };
            &&& h.embed_dim == width
            &&& h.num_heads == heads
            &&& h.stages@ == stages
            &&& h.global_att_blocks@ == global
            &&& h.window_spec@ == if size == Sam2ModelSize::Large {
                seq![8i32, 4, 16, 8]
            } else {
                seq![8i32, 4, 14, 7]
            }
            &&& h.q_pool == 3 && h.q_stride == 2 && h.image_size == 1024 && h.pos_embed_hw == 256
            &&& h.dim_mul.bits == 0x4000_0000 && h.head_mul.bits == 0x4000_0000
            &&& h.mlp_ratio.bits == 0x4080_0000
            &&& f.backbone_channel_list@.len() == 4
            &&& f.backbone_channel_list@[3] == width
            &&& f.backbone_channel_list@[2] == 2 * width
            &&& f.backbone_channel_list@[1] == 4 * width
            &&& f.backbone_channel_list@[0] == 8 * width
            &&& f.fpn_top_down_levels@ == seq![2i32, 3]
            &&& f.d_model == 256 && f.scalp == 1
        }),
{
}

} // verus!
