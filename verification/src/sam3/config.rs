//! Sizes of the segmenter's stages. Real-valued settings are held as binary32 patterns.
use crate::binary32::Binary32;
use vstd::prelude::*;

verus! {

/// Ten thousand, the base of the rotary frequencies.
pub const ROPE_THETA: u32 = 0x461c_4000;

/// One millionth.
pub const EPS_SIX: u32 = 0x3586_37bd;

/// One hundred-thousandth.
pub const EPS_FIVE: u32 = 0x3727_c5ac;

/// Ten, the clamp of the presence logit.
pub const PRESENCE_CLAMP: u32 = 0x4120_0000;

/// Twelve, the clamp of the concept score.
pub const SCORE_CLAMP: u32 = 0x4140_0000;

/// Four.
pub const SCALE_FOUR: u32 = 0x4080_0000;

/// Two.
pub const SCALE_TWO: u32 = 0x4000_0000;

/// One.
pub const SCALE_ONE: u32 = 0x3f80_0000;

/// One half.
pub const SCALE_HALF: u32 = 0x3f00_0000;

/// The vision backbone and its pyramid.
pub struct Sam3VisionConfig {
    pub hidden_size: i32,
    pub intermediate_size: i32,
    pub num_hidden_layers: i32,
    pub num_attention_heads: i32,
    pub num_channels: i32,
    pub image_size: i32,
    pub patch_size: i32,
    pub pretrain_image_size: i32,
    pub window_size: i32,
    /// The layers that attend over the whole grid.
    pub global_attn_indexes: Vec<i32>,
    pub rope_theta: Binary32,
    pub layer_norm_eps: Binary32,
    pub fpn_hidden_size: i32,
    /// The scale of each pyramid level relative to the backbone grid.
    pub scale_factors: Vec<Binary32>,
}

/// The division has a result: the divisor is not zero, and the quotient fits.
pub open spec fn divides_ok(n: i32, d: i32) -> bool {
    d != 0 && !(n == i32::MIN && d == -1)
}

/// The quotient without its fraction, rounded towards zero.
pub open spec fn whole_quotient(n: int, d: int) -> int {
    let (m, e) = (if n < 0 {
        -n
    } else {
        n
    }, if d < 0 {
        -d
    } else {
        d
    });
    if (n < 0) == (d < 0) {
        m / e
    } else {
        -(m / e)
    }
}

/// Divide two sizes.
fn divide(n: i32, d: i32) -> (r: i32)
    requires
        divides_ok(n, d),
    ensures
        r == whole_quotient(n as int, d as int),
{
    let m: i64 = if n < 0 {
        -(n as i64)
    } else {
        n as i64
    };
    let e: i64 = if d < 0 {
        -(d as i64)
    } else {
        d as i64
    };
    let whole: i64 = m / e;
    proof {
        assert(0 <= whole <= m && (e >= 2 ==> 2 * whole <= m)) by (nonlinear_arith)
            requires
                whole == m / e,
                0 <= m,
                0 < e,
        ;
    }
    if (n < 0) == (d < 0) {
        whole as i32
    } else {
        (-whole) as i32
    }
}

impl Sam3VisionConfig {
    /// The published configuration.
    pub fn sam3() -> (c: Sam3VisionConfig)
        ensures
            c.hidden_size == 1024,
            c.intermediate_size == 4736,
            c.num_hidden_layers == 32,
            c.num_attention_heads == 16,
            c.num_channels == 3,
            c.image_size == 1008,
            c.patch_size == 14,
            c.pretrain_image_size == 336,
            c.window_size == 24,
            c.global_attn_indexes@ == seq![7i32, 15, 23, 31],
            c.rope_theta == (Binary32 { bits: ROPE_THETA }),
            c.layer_norm_eps == (Binary32 { bits: EPS_SIX }),
            c.fpn_hidden_size == 256,
            c.scale_factors@ == seq![
                Binary32 { bits: SCALE_FOUR },
                Binary32 { bits: SCALE_TWO },
                Binary32 { bits: SCALE_ONE },
                Binary32 { bits: SCALE_HALF },
            ],
            c.rope_theta.bits == 0x461c_4000,
            c.layer_norm_eps.bits == 0x3586_37bd,
            c.scale_factors@[0].bits == 0x4080_0000,
            c.scale_factors@[1].bits == 0x4000_0000,
            c.scale_factors@[2].bits == 0x3f80_0000,
            c.scale_factors@[3].bits == 0x3f00_0000,
    {
        let global_attn_indexes: Vec<i32> = vec![7, 15, 23, 31];
        let scale_factors: Vec<Binary32> =
            vec![
                Binary32 { bits: SCALE_FOUR },
                Binary32 { bits: SCALE_TWO },
                Binary32 { bits: SCALE_ONE },
                Binary32 { bits: SCALE_HALF },
            ];
        assert(global_attn_indexes@ =~= seq![7i32, 15, 23, 31]);
        assert(scale_factors@ =~= seq![
            Binary32 { bits: SCALE_FOUR },
            Binary32 { bits: SCALE_TWO },
            Binary32 { bits: SCALE_ONE },
            Binary32 { bits: SCALE_HALF },
        ]);
        Sam3VisionConfig {
            hidden_size: 1024,
            intermediate_size: 4736,
            num_hidden_layers: 32,
            num_attention_heads: 16,
            num_channels: 3,
            image_size: 1008,
            patch_size: 14,
            pretrain_image_size: 336,
            window_size: 24,
            global_attn_indexes,
            rope_theta: Binary32 { bits: ROPE_THETA },
            layer_norm_eps: Binary32 { bits: EPS_SIX },
            fpn_hidden_size: 256,
            scale_factors,
        }
    }

    /// The width of an attention head.
    pub fn head_dim(&self) -> (r: i32)
        requires
            divides_ok(self.hidden_size, self.num_attention_heads),
        ensures
            r == whole_quotient(self.hidden_size as int, self.num_attention_heads as int),
    {
        divide(self.hidden_size, self.num_attention_heads)
    }

    /// The side of the token grid.
    pub fn grid(&self) -> (r: i32)
        requires
            divides_ok(self.image_size, self.patch_size),
        ensures
            r == whole_quotient(self.image_size as int, self.patch_size as int),
    {
        divide(self.image_size, self.patch_size)
    }

    /// The side of the grid that positions were learned on.
    pub fn pretrain_grid(&self) -> (r: i32)
        requires
            divides_ok(self.pretrain_image_size, self.patch_size),
        ensures
            r == whole_quotient(self.pretrain_image_size as int, self.patch_size as int),
    {
        divide(self.pretrain_image_size, self.patch_size)
    }
}

impl Default for Sam3VisionConfig {
    /// The published configuration.
    fn default() -> (c: Sam3VisionConfig)
        ensures
            c.hidden_size == 1024,
            c.intermediate_size == 4736,
            c.num_hidden_layers == 32,
            c.num_attention_heads == 16,
            c.num_channels == 3,
            c.image_size == 1008,
            c.patch_size == 14,
            c.pretrain_image_size == 336,
            c.window_size == 24,
            c.global_attn_indexes@ == seq![7i32, 15, 23, 31],
            c.rope_theta == (Binary32 { bits: ROPE_THETA }),
            c.layer_norm_eps == (Binary32 { bits: EPS_SIX }),
            c.fpn_hidden_size == 256,
            c.scale_factors@ == seq![
                Binary32 { bits: SCALE_FOUR },
                Binary32 { bits: SCALE_TWO },
                Binary32 { bits: SCALE_ONE },
                Binary32 { bits: SCALE_HALF },
            ],
            c.rope_theta.bits == 0x461c_4000,
            c.layer_norm_eps.bits == 0x3586_37bd,
            c.scale_factors@[0].bits == 0x4080_0000,
            c.scale_factors@[1].bits == 0x4000_0000,
            c.scale_factors@[2].bits == 0x3f80_0000,
            c.scale_factors@[3].bits == 0x3f00_0000,
    {
        Sam3VisionConfig::sam3()
    }
}

/// The detector: encoder, decoder, presence and scoring.
#[derive(Clone, Copy, Debug, PartialEq, Eq, Structural)]
pub struct Sam3DetrConfig {
    pub hidden_size: i32,
    pub intermediate_size: i32,
    pub num_attention_heads: i32,
    pub num_encoder_layers: i32,
    pub num_decoder_layers: i32,
    pub num_queries: i32,
    pub layer_norm_eps: Binary32,
    pub presence_clamp: Binary32,
    pub score_clamp: Binary32,
}

impl Sam3DetrConfig {
    /// The published configuration.
    pub fn sam3() -> (c: Sam3DetrConfig)
        ensures
            c == (Sam3DetrConfig {
                hidden_size: 256,
                intermediate_size: 2048,
                num_attention_heads: 8,
                num_encoder_layers: 6,
                num_decoder_layers: 6,
                num_queries: 200,
                layer_norm_eps: Binary32 { bits: EPS_FIVE },
                presence_clamp: Binary32 { bits: PRESENCE_CLAMP },
                score_clamp: Binary32 { bits: SCORE_CLAMP },
            }),
            c.layer_norm_eps.bits == 0x3727_c5ac,
            c.presence_clamp.bits == 0x4120_0000,
            c.score_clamp.bits == 0x4140_0000,
    {
        Sam3DetrConfig {
            hidden_size: 256,
            intermediate_size: 2048,
            num_attention_heads: 8,
            num_encoder_layers: 6,
            num_decoder_layers: 6,
            num_queries: 200,
            layer_norm_eps: Binary32 { bits: EPS_FIVE },
            presence_clamp: Binary32 { bits: PRESENCE_CLAMP },
            score_clamp: Binary32 { bits: SCORE_CLAMP },
        }
    }

    /// The width of an attention head.
    pub fn head_dim(&self) -> (r: i32)
        requires
            divides_ok(self.hidden_size, self.num_attention_heads),
        ensures
            r == whole_quotient(self.hidden_size as int, self.num_attention_heads as int),
    {
        divide(self.hidden_size, self.num_attention_heads)
    }
}

impl Default for Sam3DetrConfig {
    /// The published configuration.
    fn default() -> (c: Sam3DetrConfig)
        ensures
            c == (Sam3DetrConfig {
                hidden_size: 256,
                intermediate_size: 2048,
                num_attention_heads: 8,
                num_encoder_layers: 6,
                num_decoder_layers: 6,
                num_queries: 200,
                layer_norm_eps: Binary32 { bits: EPS_FIVE },
                presence_clamp: Binary32 { bits: PRESENCE_CLAMP },
                score_clamp: Binary32 { bits: SCORE_CLAMP },
            }),
            c.layer_norm_eps.bits == 0x3727_c5ac,
            c.presence_clamp.bits == 0x4120_0000,
            c.score_clamp.bits == 0x4140_0000,
    {
        Sam3DetrConfig::sam3()
    }
}

/// The encoder of box prompts.
#[derive(Clone, Copy, Debug, PartialEq, Eq, Structural)]
pub struct Sam3GeometryConfig {
    pub hidden_size: i32,
    pub intermediate_size: i32,
    pub num_layers: i32,
    pub num_attention_heads: i32,
    pub roi_size: i32,
    pub layer_norm_eps: Binary32,
}

impl Sam3GeometryConfig {
    /// The published configuration.
    pub fn sam3() -> (c: Sam3GeometryConfig)
        ensures
            c == (Sam3GeometryConfig {
                hidden_size: 256,
                intermediate_size: 2048,
                num_layers: 3,
                num_attention_heads: 8,
                roi_size: 7,
                layer_norm_eps: Binary32 { bits: EPS_SIX },
            }),
            c.layer_norm_eps.bits == 0x3586_37bd,
    {
        Sam3GeometryConfig {
            hidden_size: 256,
            intermediate_size: 2048,
            num_layers: 3,
            num_attention_heads: 8,
            roi_size: 7,
            layer_norm_eps: Binary32 { bits: EPS_SIX },
        }
    }

    /// The width of an attention head.
    pub fn head_dim(&self) -> (r: i32)
        requires
            divides_ok(self.hidden_size, self.num_attention_heads),
        ensures
            r == whole_quotient(self.hidden_size as int, self.num_attention_heads as int),
    {
        divide(self.hidden_size, self.num_attention_heads)
    }
}

impl Default for Sam3GeometryConfig {
    /// The published configuration.
    fn default() -> (c: Sam3GeometryConfig)
        ensures
            c == (Sam3GeometryConfig {
                hidden_size: 256,
                intermediate_size: 2048,
                num_layers: 3,
                num_attention_heads: 8,
                roi_size: 7,
                layer_norm_eps: Binary32 { bits: EPS_SIX },
            }),
            c.layer_norm_eps.bits == 0x3586_37bd,
    {
        Sam3GeometryConfig::sam3()
    }
}

/// The text encoder.
#[derive(Clone, Copy, Debug, PartialEq, Eq, Structural)]
pub struct Sam3TextConfig {
    pub hidden_size: i32,
    pub intermediate_size: i32,
    pub num_hidden_layers: i32,
    pub num_attention_heads: i32,
    pub vocab_size: i32,
    pub max_position_embeddings: i32,
    pub layer_norm_eps: Binary32,
    pub projection_dim: i32,
    pub pad_token_id: i32,
}

impl Sam3TextConfig {
    /// The published configuration.
    pub fn sam3() -> (c: Sam3TextConfig)
        ensures
            c == (Sam3TextConfig {
                hidden_size: 1024,
                intermediate_size: 4096,
                num_hidden_layers: 24,
                num_attention_heads: 16,
                vocab_size: 49408,
                max_position_embeddings: 32,
                layer_norm_eps: Binary32 { bits: EPS_FIVE },
                projection_dim: 256,
                pad_token_id: 49407,
            }),
            c.layer_norm_eps.bits == 0x3727_c5ac,
    {
        Sam3TextConfig {
            hidden_size: 1024,
            intermediate_size: 4096,
            num_hidden_layers: 24,
            num_attention_heads: 16,
            vocab_size: 49408,
            max_position_embeddings: 32,
            layer_norm_eps: Binary32 { bits: EPS_FIVE },
            projection_dim: 256,
            pad_token_id: 49407,
        }
    }

    /// The width of an attention head.
    pub fn head_dim(&self) -> (r: i32)
        requires
            divides_ok(self.hidden_size, self.num_attention_heads),
        ensures
            r == whole_quotient(self.hidden_size as int, self.num_attention_heads as int),
    {
        divide(self.hidden_size, self.num_attention_heads)
    }
}

impl Default for Sam3TextConfig {
    /// The published configuration.
    fn default() -> (c: Sam3TextConfig)
        ensures
            c == (Sam3TextConfig {
                hidden_size: 1024,
                intermediate_size: 4096,
                num_hidden_layers: 24,
                num_attention_heads: 16,
                vocab_size: 49408,
                max_position_embeddings: 32,
                layer_norm_eps: Binary32 { bits: EPS_FIVE },
                projection_dim: 256,
                pad_token_id: 49407,
            }),
            c.layer_norm_eps.bits == 0x3727_c5ac,
    {
        Sam3TextConfig::sam3()
    }
}

/// Quotients are rounded toward zero: the quotient of numbers that are not negative is the whole
/// number of times that one goes into the other, and a change of either sign changes its sign.
pub proof fn quotients_round_toward_zero(n: int, d: int)
    requires
        0 <= n,
        0 < d,
    ensures
        whole_quotient(n, d) == n / d,
        whole_quotient(-n, d) == -(n / d),
        whole_quotient(n, -d) == -(n / d),
        whole_quotient(-n, -d) == n / d,
{
    if n == 0 {
        assert(0int / d == 0) by (nonlinear_arith)
            requires
                0 < d,
        ;
    }
}

} // verus!
