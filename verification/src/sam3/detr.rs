//! The detector: tensor names, the treatment of padded prompt tokens, and the rows of its decoder.
use super::config::Sam3DetrConfig;
use crate::binary32::Binary32;
use crate::collect::{tally, tally_push};
use vstd::prelude::*;

verus! {

/// Minus one billion, which takes a key out of an attention.
pub const MASKED_KEY: u32 = 0xce6e_6b28;

/// One.
pub const ONE: u32 = 0x3f80_0000;

/// Join a prefix and a name with a dot.
pub fn join(prefix: &str, leaf: &str) -> (r: String)
    ensures
        r@ == prefix@ + seq!['.'] + leaf@,
{
    proof {
        reveal_strlit(".");
        assert("."@ =~= seq!['.']);
    }
    let mut r: String = prefix.to_owned();
    r.append(".");
    r.append(leaf);
    r
}

/// The prompt token is valid.
pub open spec fn valid_token(m: i32) -> bool {
    m == 1
}

/// The additive mask over prompt keys: nothing for a valid token, minus one billion for padding.
pub fn text_key_mask(text_mask: &[i32]) -> (r: Vec<Binary32>)
    ensures
        r@.len() == text_mask@.len(),
        forall|i: int|
            0 <= i < r@.len() ==> #[trigger] r@[i] == if valid_token(text_mask@[i]) {
                Binary32 { bits: 0 }
            } else {
                Binary32 { bits: MASKED_KEY }
            },
        forall|i: int|
            0 <= i < r@.len() ==> (#[trigger] r@[i]).bits == if text_mask@[i] == 1 {
                0u32
            } else {
                0xce6e_6b28u32
            },
{
    let mut r: Vec<Binary32> = Vec::new();
    let mut i: usize = 0;
    while i < text_mask.len()
        invariant
            i <= text_mask@.len(),
            r@.len() == i,
            forall|k: int|
                0 <= k < i ==> #[trigger] r@[k] == if valid_token(text_mask@[k]) {
                    Binary32 { bits: 0 }
                } else {
                    Binary32 { bits: MASKED_KEY }
                },
        decreases text_mask@.len() - i,
    {
        if text_mask[i] == 1 {
            r.push(Binary32 { bits: 0 });
        } else {
            r.push(Binary32 { bits: MASKED_KEY });
        }
        i = i + 1;
    }
    r
}

/// The valid tokens of a prompt.
pub open spec fn validity(text_mask: Seq<i32>) -> Seq<bool> {
    Seq::new(text_mask.len(), |i: int| valid_token(text_mask[i]))
}

/// Weights of a mean over the valid tokens, wherever they stand.
pub struct PoolWeights {
    /// One per valid token, zero per padded one.
    pub weights: Vec<Binary32>,
    /// The number of valid tokens, at least one.
    pub divisor: usize,
}

/// The weights for averaging a prompt over its valid tokens.
pub fn pool_weights(text_mask: &[i32]) -> (r: PoolWeights)
    ensures
        r.weights@.len() == text_mask@.len(),
        forall|i: int|
            0 <= i < text_mask@.len() ==> #[trigger] r.weights@[i] == if valid_token(
                text_mask@[i],
            ) {
                Binary32 { bits: ONE }
            } else {
                Binary32 { bits: 0 }
            },
        r.divisor == (if tally(validity(text_mask@)) == 0 {
            1
        } else {
            tally(validity(text_mask@))
        }),
        forall|i: int|
            0 <= i < text_mask@.len() ==> (#[trigger] r.weights@[i]).bits == if text_mask@[i] == 1 {
                0x3f80_0000u32
            } else {
                0u32
            },
        1 <= r.divisor,
{
    let ghost s = validity(text_mask@);
    let mut weights: Vec<Binary32> = Vec::new();
    let mut count: usize = 0;
    let mut i: usize = 0;
    assert(s.take(0) =~= Seq::<bool>::empty());
    while i < text_mask.len()
        invariant
            i <= text_mask@.len(),
            s == validity(text_mask@),
            count == tally(s.take(i as int)),
            count <= i,
            weights@.len() == i,
            forall|k: int|
                0 <= k < i ==> #[trigger] weights@[k] == if valid_token(text_mask@[k]) {
                    Binary32 { bits: ONE }
                } else {
                    Binary32 { bits: 0 }
                },
        decreases text_mask@.len() - i,
    {
        proof {
            tally_push(s, i as int);
        }
        if text_mask[i] == 1 {
            weights.push(Binary32 { bits: ONE });
            count = count + 1;
        } else {
            weights.push(Binary32 { bits: 0 });
        }
        i = i + 1;
    }
    assert(s.take(text_mask@.len() as int) =~= s);
    PoolWeights {
        weights,
        divisor: if count == 0 {
            1
        } else {
            count
        },
    }
}

/// The mask of a text prompt followed by `geometry` tokens of a box prompt, all of them valid.
pub fn combined_mask(text_mask: &[i32], geometry: usize) -> (r: Vec<i32>)
    requires
        text_mask@.len() + geometry <= usize::MAX,
    ensures
        r@ == text_mask@ + Seq::new(geometry as nat, |i: int| 1i32),
{
    let mut r: Vec<i32> = Vec::new();
    let mut i: usize = 0;
    while i < text_mask.len()
        invariant
            i <= text_mask@.len(),
            r@ == text_mask@.take(i as int),
        decreases text_mask@.len() - i,
    {
        r.push(text_mask[i]);
        assert(text_mask@.take(i + 1) =~= text_mask@.take(i as int).push(text_mask@[i as int]));
        i = i + 1;
    }
    assert(text_mask@.take(text_mask@.len() as int) =~= text_mask@);
    let mut k: usize = 0;
    assert(text_mask@ + Seq::new(0, |i: int| 1i32) =~= text_mask@);
    while k < geometry
        invariant
            k <= geometry,
            r@ == text_mask@ + Seq::new(k as nat, |i: int| 1i32),
        decreases geometry - k,
    {
        r.push(1);
        k = k + 1;
        assert(r@ =~= text_mask@ + Seq::new(k as nat, |i: int| 1i32));
    }
    r
}

/// A box prompt only ever adds valid tokens: the text tokens keep their validity, and the number
/// of valid tokens grows by the number of box tokens.
pub proof fn box_tokens_are_valid(text_mask: Seq<i32>, geometry: nat)
    ensures
        tally(validity(text_mask + Seq::new(geometry, |i: int| 1i32))) == tally(
            validity(text_mask),
        ) + geometry,
    decreases geometry,
{
    let whole = validity(text_mask + Seq::new(geometry, |i: int| 1i32));
    if geometry == 0 {
        assert(whole =~= validity(text_mask));
    } else {
        let less = (geometry - 1) as nat;
        box_tokens_are_valid(text_mask, less);
        assert(whole.drop_last() =~= validity(text_mask + Seq::new(less, |i: int| 1i32)));
        assert(whole.last());
    }
}

/// The additive mask over prompt keys for the mask head; the same as the detector's.
pub fn prompt_key_mask(prompt_mask: &[i32]) -> (r: Vec<Binary32>)
    ensures
        r@.len() == prompt_mask@.len(),
        forall|i: int|
            0 <= i < r@.len() ==> #[trigger] r@[i] == if valid_token(prompt_mask@[i]) {
                Binary32 { bits: 0 }
            } else {
                Binary32 { bits: MASKED_KEY }
            },
        forall|i: int|
            0 <= i < r@.len() ==> (#[trigger] r@[i]).bits == if prompt_mask@[i] == 1 {
                0u32
            } else {
                0xce6e_6b28u32
            },
{
    text_key_mask(prompt_mask)
}

/// What a detector run is made of, apart from its tensors.
#[derive(Debug)]
pub struct DetectionPlan {
    /// The tokens of the vision feature.
    pub vision_tokens: i32,
    /// The additive mask over prompt keys.
    pub key_mask: Vec<Binary32>,
    pub encoder_layers: i32,
    pub decoder_layers: i32,
    /// The row of the decoder's presence token.
    pub presence_row: i32,
    /// The rows of the decoder's object queries.
    pub query_rows: Vec<i32>,
    /// The layer whose boxes, queries and presence are handed on.
    pub output_layer: i32,
}

/// Plan a detector run over a feature of `h` by `w` tokens: the decoder puts the presence token
/// before its queries, and only the last layer is handed on.
pub fn plan_detection(cfg: &Sam3DetrConfig, h: i32, w: i32, text_mask: &[i32]) -> (r: DetectionPlan)
    requires
        0 <= h,
        0 <= w,
        h * w <= i32::MAX,
        0 < cfg.num_decoder_layers,
        0 <= cfg.num_queries < i32::MAX,
    ensures
        r.vision_tokens == h * w,
        r.key_mask@.len() == text_mask@.len(),
        forall|i: int|
            0 <= i < r.key_mask@.len() ==> #[trigger] r.key_mask@[i] == if valid_token(
                text_mask@[i],
            ) {
                Binary32 { bits: 0 }
            } else {
                Binary32 { bits: MASKED_KEY }
            },
        r.encoder_layers == cfg.num_encoder_layers,
        r.decoder_layers == cfg.num_decoder_layers,
        r.presence_row == 0,
        r.query_rows@ == Seq::new(cfg.num_queries as nat, |i: int| (i + 1) as i32),
        r.output_layer == cfg.num_decoder_layers - 1,
        forall|i: int|
            0 <= i < r.key_mask@.len() ==> (#[trigger] r.key_mask@[i]).bits == if text_mask@[i]
                == 1 {
                0u32
            } else {
                0xce6e_6b28u32
            },
{
    let mut query_rows: Vec<i32> = Vec::new();
    let mut q: i32 = 0;
    while q < cfg.num_queries
        invariant
            0 <= q <= cfg.num_queries < i32::MAX,
            query_rows@ == Seq::new(q as nat, |i: int| (i + 1) as i32),
        decreases cfg.num_queries - q,
    {
        query_rows.push(q + 1);
        q = q + 1;
        assert(query_rows@ =~= Seq::new(q as nat, |i: int| (i + 1) as i32));
    }
    assert(0 <= h * w) by (nonlinear_arith)
        requires
            0 <= h,
            0 <= w,
    ;
    DetectionPlan {
        vision_tokens: h * w,
        key_mask: text_key_mask(text_mask),
        encoder_layers: cfg.num_encoder_layers,
        decoder_layers: cfg.num_decoder_layers,
        presence_row: 0,
        query_rows,
        output_layer: cfg.num_decoder_layers - 1,
    }
}

} // verus!
