//! Names of checkpoint tensors.
//!
//! Checkpoints name their tensors after the module tree of the training framework. The functions
//! here map each name to the one under which the model looks it up, and say how the tensor is
//! rearranged on the way.
use crate::text::{
    contains, decimal, decimal_round_trip, digits, ends_with, has_prefix, has_suffix, is_digit,
    last_part, last_segment, occurs, parse_usize, parsed, replace_all, replaced, rsplit_once,
    same_text, split_first, split_first_at, split_last, split_last_at, split_once, stands_at,
    strip_prefix, strip_suffix, without_prefix, without_suffix,
};
use vstd::prelude::*;

verus! {

/// A transformer tensor's name where the model uses another one: in each family of names, the
/// part that is renamed, by the first family that matches.
pub open spec fn renamed_transformer_key(k: Seq<char>) -> Option<Seq<char>> {
    if occurs(k, ".attn.to_out.0."@) {
        Some(replaced(k, ".attn.to_out.0."@, ".attn.attn_to_out.0."@))
    } else if occurs(k, ".img_mod.1."@) {
        Some(replaced(k, ".img_mod.1."@, ".img_mod_linear."@))
    } else if occurs(k, ".txt_mod.1."@) {
        Some(replaced(k, ".txt_mod.1."@, ".txt_mod_linear."@))
    } else if occurs(k, ".img_mlp.net.0.proj."@) {
        Some(replaced(k, ".img_mlp.net.0.proj."@, ".img_ff.mlp_in."@))
    } else if occurs(k, ".img_mlp.net.2."@) {
        Some(replaced(k, ".img_mlp.net.2."@, ".img_ff.mlp_out."@))
    } else if occurs(k, ".txt_mlp.net.0.proj."@) {
        Some(replaced(k, ".txt_mlp.net.0.proj."@, ".txt_ff.mlp_in."@))
    } else if occurs(k, ".txt_mlp.net.2."@) {
        Some(replaced(k, ".txt_mlp.net.2."@, ".txt_ff.mlp_out."@))
    } else {
        None
    }
}

/// An optional text and the characters it should have.
pub open spec fn is_text(r: Option<String>, goal: Option<Seq<char>>) -> bool {
    match r {
        Some(t) => goal == Some(t@),
        None => goal is None,
    }
}

/// The model's name for a transformer tensor, where it differs from the checkpoint's.
pub fn transformer_internal_key(k: &str) -> (r: Option<String>)
    ensures
        is_text(r, renamed_transformer_key(k@)),
{
    if contains(k, ".attn.to_out.0.") {
        Some(replace_all(k, ".attn.to_out.0.", ".attn.attn_to_out.0."))
    } else if contains(k, ".img_mod.1.") {
        Some(replace_all(k, ".img_mod.1.", ".img_mod_linear."))
    } else if contains(k, ".txt_mod.1.") {
        Some(replace_all(k, ".txt_mod.1.", ".txt_mod_linear."))
    } else if contains(k, ".img_mlp.net.0.proj.") {
        Some(replace_all(k, ".img_mlp.net.0.proj.", ".img_ff.mlp_in."))
    } else if contains(k, ".img_mlp.net.2.") {
        Some(replace_all(k, ".img_mlp.net.2.", ".img_ff.mlp_out."))
    } else if contains(k, ".txt_mlp.net.0.proj.") {
        Some(replace_all(k, ".txt_mlp.net.0.proj.", ".txt_ff.mlp_in."))
    } else if contains(k, ".txt_mlp.net.2.") {
        Some(replace_all(k, ".txt_mlp.net.2.", ".txt_ff.mlp_out."))
    } else {
        None
    }
}

/// The aliases that a transformer checkpoint with these tensors needs.
pub fn remap_transformer_keys(keys: &[String]) -> (r: Vec<Option<String>>)
    ensures
        r@.len() == keys@.len(),
        forall|i: int|
            0 <= i < keys@.len() ==> is_text(
                #[trigger] r@[i],
                renamed_transformer_key(keys@[i]@),
            ),
{
    let mut r: Vec<Option<String>> = Vec::new();
    let mut i: usize = 0;
    while i < keys.len()
        invariant
            i <= keys@.len(),
            r@.len() == i,
            forall|j: int|
                0 <= j < i ==> is_text(#[trigger] r@[j], renamed_transformer_key(keys@[j]@)),
        decreases keys@.len() - i,
    {
        r.push(transformer_internal_key(keys[i].as_str()));
        i = i + 1;
    }
    r
}

/// The name of a tensor below a residual block.
pub open spec fn resnet_tail(tail: Seq<char>) -> Seq<char> {
    match without_suffix(tail, ".gamma"@) {
        Some(p) => p + ".weight"@,
        None => match split_last(tail, '.') {
            Some((parent, leaf)) => if parent == "conv1"@ || parent == "conv2"@ {
                parent + ".conv3d."@ + leaf
            } else if parent == "conv_shortcut"@ {
                "skip_conv.conv3d."@ + leaf
            } else {
                tail
            },
            None => tail,
        },
    }
}

/// Rename a tensor below a residual block.
pub fn remap_resnet_tail(tail: &str) -> (r: String)
    ensures
        r@ == resnet_tail(tail@),
{
    if let Some(p) = strip_suffix(tail, ".gamma") {
        return pair(p, ".weight");
    }
    match rsplit_once(tail, '.') {
        Some((parent, leaf)) => {
            if same_text(parent, "conv1") || same_text(parent, "conv2") {
                triple(parent, ".conv3d.", leaf)
            } else if same_text(parent, "conv_shortcut") {
                pair("skip_conv.conv3d.", leaf)
            } else {
                tail.to_owned()
            }
        },
        None => tail.to_owned(),
    }
}

/// The module is one of the causal convolutions.
pub open spec fn is_causal_conv(name: Seq<char>) -> bool {
    ||| name == "conv_in"@
    ||| name == "conv_out"@
    ||| name == "conv1"@
    ||| name == "conv2"@
    ||| name == "quant_conv"@
    ||| name == "post_quant_conv"@
}

/// The name of a tensor outside the down and up blocks.
pub open spec fn generic_vae_key(k: Seq<char>) -> Seq<char> {
    match without_suffix(k, ".gamma"@) {
        Some(p) => p + ".weight"@,
        None => match split_last(k, '.') {
            Some((parent, leaf)) => if is_causal_conv(last_part(parent, '.')) {
                parent + ".conv3d."@ + leaf
            } else {
                k
            },
            None => k,
        },
    }
}

/// Rename a tensor outside the down and up blocks.
pub fn remap_generic_vae(k: &str) -> (r: String)
    ensures
        r@ == generic_vae_key(k@),
{
    if let Some(p) = strip_suffix(k, ".gamma") {
        return pair(p, ".weight");
    }
    match rsplit_once(k, '.') {
        Some((parent, leaf)) => {
            let name = last_segment(parent, '.');
            if same_text(name, "conv_in") || same_text(name, "conv_out") || same_text(name, "conv1")
                || same_text(name, "conv2") || same_text(name, "quant_conv") || same_text(
                name,
                "post_quant_conv",
            ) {
                triple(parent, ".conv3d.", leaf)
            } else {
                k.to_owned()
            }
        },
        None => k.to_owned(),
    }
}

/// The name of an encoder tensor: the flat blocks come in groups of two residual blocks and a
/// downsampler.
pub open spec fn encoder_block_key(rest: Seq<char>) -> Option<Seq<char>> {
    match split_first(rest, '.') {
        Some((flat, tail)) => match parsed(flat) {
            Some(f) => if f % 3 == 2 {
                match without_prefix(tail, "resample.1."@) {
                    Some(leaf) => Some(
                        "encoder.down_blocks."@ + digits((f / 3) as nat)
                            + ".downsamplers.0.resample_conv."@ + leaf,
                    ),
                    None => None,
                }
            } else {
                Some(
                    "encoder.down_blocks."@ + digits((f / 3) as nat) + ".resnets."@ + digits(
                        (f % 3) as nat,
                    ) + "."@ + resnet_tail(tail),
                )
            },
            None => None,
        },
        None => None,
    }
}

/// The name of a decoder tensor.
pub open spec fn decoder_block_key(rest: Seq<char>) -> Option<Seq<char>> {
    match split_first(rest, '.') {
        Some((b, tail)) => match without_prefix(tail, "upsamplers.0."@) {
            Some(up) => match without_prefix(up, "resample.1."@) {
                Some(leaf) => Some(
                    "decoder.up_block"@ + b + ".upsamplers.0.resample_conv."@ + leaf,
                ),
                None => None,
            },
            None => match without_prefix(tail, "resnets."@) {
                Some(after) => match split_first(after, '.') {
                    Some((r, rtail)) => Some(
                        "decoder.up_block"@ + b + ".resnets."@ + r + "."@ + resnet_tail(rtail),
                    ),
                    None => None,
                },
                None => None,
            },
        },
        None => None,
    }
}

/// The model's name for a tensor of the autoencoder; none where the tensor is not used.
pub open spec fn vae_key(k: Seq<char>) -> Option<Seq<char>> {
    if occurs(k, ".time_conv."@) {
        None
    } else {
        match without_prefix(k, "encoder.down_blocks."@) {
            Some(rest) => encoder_block_key(rest),
            None => match without_prefix(k, "decoder.up_blocks."@) {
                Some(rest) => decoder_block_key(rest),
                None => Some(generic_vae_key(k)),
            },
        }
    }
}

fn pair(a: &str, b: &str) -> (r: String)
    ensures
        r@ == a@ + b@,
{
    let mut r: String = a.to_owned();
    r.append(b);
    r
}

fn triple(a: &str, b: &str, c: &str) -> (r: String)
    ensures
        r@ == a@ + b@ + c@,
{
    let mut r: String = pair(a, b);
    r.append(c);
    r
}

fn encoder_block(rest: &str) -> (r: Option<String>)
    ensures
        is_text(r, encoder_block_key(rest@)),
{
    let (flat, tail) = match split_once(rest, '.') {
        Some(parts) => parts,
        None => {
            return None;
        },
    };
    let f: usize = match parse_usize(flat) {
        Some(f) => f,
        None => {
            return None;
        },
    };
    let group: String = decimal((f / 3) as u64);
    if f % 3 == 2 {
        match strip_prefix(tail, "resample.1.") {
            Some(leaf) => {
                let mut r: String = triple(
                    "encoder.down_blocks.",
                    group.as_str(),
                    ".downsamplers.0.resample_conv.",
                );
                r.append(leaf);
                Some(r)
            },
            None => None,
        }
    } else {
        let slot: String = decimal((f % 3) as u64);
        let mut r: String = triple("encoder.down_blocks.", group.as_str(), ".resnets.");
        r.append(slot.as_str());
        r.append(".");
        r.append(remap_resnet_tail(tail).as_str());
        Some(r)
    }
}

fn decoder_block(rest: &str) -> (r: Option<String>)
    ensures
        is_text(r, decoder_block_key(rest@)),
{
    let (b, tail) = match split_once(rest, '.') {
        Some(parts) => parts,
        None => {
            return None;
        },
    };
    if let Some(up) = strip_prefix(tail, "upsamplers.0.") {
        return match strip_prefix(up, "resample.1.") {
            Some(leaf) => {
                let mut r: String = triple(
                    "decoder.up_block",
                    b,
                    ".upsamplers.0.resample_conv.",
                );
                r.append(leaf);
                Some(r)
            },
            None => None,
        };
    }
    match strip_prefix(tail, "resnets.") {
        Some(after) => match split_once(after, '.') {
            Some((index, rtail)) => {
                let mut r: String = triple("decoder.up_block", b, ".resnets.");
                r.append(index);
                r.append(".");
                r.append(remap_resnet_tail(rtail).as_str());
                Some(r)
            },
            None => None,
        },
        None => None,
    }
}

/// The model's name for a tensor of the autoencoder; none where the tensor is not used.
pub fn vae_internal_key(k: &str) -> (r: Option<String>)
    ensures
        is_text(r, vae_key(k@)),
{
    if contains(k, ".time_conv.") {
        return None;
    }
    if let Some(rest) = strip_prefix(k, "encoder.down_blocks.") {
        return encoder_block(rest);
    }
    if let Some(rest) = strip_prefix(k, "decoder.up_blocks.") {
        return decoder_block(rest);
    }
    Some(remap_generic_vae(k))
}

/// Rename the tensors of an autoencoder checkpoint; none for those that are not used.
pub fn remap_vae_keys(keys: &[String]) -> (r: Vec<Option<String>>)
    ensures
        r@.len() == keys@.len(),
        forall|i: int| 0 <= i < keys@.len() ==> is_text(#[trigger] r@[i], vae_key(keys@[i]@)),
{
    let mut r: Vec<Option<String>> = Vec::new();
    let mut i: usize = 0;
    while i < keys.len()
        invariant
            i <= keys@.len(),
            r@.len() == i,
            forall|j: int| 0 <= j < i ==> is_text(#[trigger] r@[j], vae_key(keys@[j]@)),
        decreases keys@.len() - i,
    {
        r.push(vae_internal_key(keys[i].as_str()));
        i = i + 1;
    }
    r
}

/// How a tensor is rearranged on loading.
#[derive(Clone, Copy, Debug, PartialEq, Eq, Structural)]
pub enum Rearrangement {
    /// Left as it is.
    Keep,
    /// Flattened to its first dimension.
    Flatten,
    /// The input channels of a convolution over volumes move last.
    ChannelsLast3d,
    /// The input channels of a convolution over planes move last.
    ChannelsLast2d,
}

/// The axes in their new order.
pub open spec fn axes_of(r: Rearrangement) -> Seq<int> {
    match r {
        Rearrangement::ChannelsLast3d => seq![0, 2, 3, 4, 1],
        Rearrangement::ChannelsLast2d => seq![0, 2, 3, 1],
        _ => Seq::empty(),
    }
}

/// How a tensor of the autoencoder is rearranged, by its name in the checkpoint and its rank.
pub open spec fn vae_rearrangement(src_key: Seq<char>, rank: int) -> Rearrangement {
    if has_suffix(src_key, ".gamma"@) {
        Rearrangement::Flatten
    } else if has_suffix(src_key, ".weight"@) && rank == 5 {
        Rearrangement::ChannelsLast3d
    } else if has_suffix(src_key, ".weight"@) && rank == 4 {
        Rearrangement::ChannelsLast2d
    } else {
        Rearrangement::Keep
    }
}

/// Choose the rearrangement of a tensor of the autoencoder.
pub fn transform_vae_tensor(src_key: &str, rank: usize) -> (r: Rearrangement)
    ensures
        r == vae_rearrangement(src_key@, rank as int),
{
    if ends_with(src_key, ".gamma") {
        return Rearrangement::Flatten;
    }
    if ends_with(src_key, ".weight") {
        if rank == 5 {
            return Rearrangement::ChannelsLast3d;
        }
        if rank == 4 {
            return Rearrangement::ChannelsLast2d;
        }
    }
    Rearrangement::Keep
}

impl Rearrangement {
    /// The axes in their new order, where the tensor is transposed.
    pub fn axes(&self) -> (r: Vec<i32>)
        ensures
            r@.map_values(|a: i32| a as int) == axes_of(*self),
    {
        let r: Vec<i32> = match self {
            Rearrangement::ChannelsLast3d => vec![0, 2, 3, 4, 1],
            Rearrangement::ChannelsLast2d => vec![0, 2, 3, 1],
            _ => Vec::new(),
        };
        assert(r@.map_values(|a: i32| a as int) =~= axes_of(*self));
        r
    }
}

/// The model's name for a tensor of the vision encoder, where it differs.
pub open spec fn renamed_vision_key(k: Seq<char>) -> Option<Seq<char>> {
    if k == "visual.merger.mlp.0.weight"@ {
        Some("visual.merger.mlp_0.weight"@)
    } else if k == "visual.merger.mlp.0.bias"@ {
        Some("visual.merger.mlp_0.bias"@)
    } else if k == "visual.merger.mlp.2.weight"@ {
        Some("visual.merger.mlp_1.weight"@)
    } else if k == "visual.merger.mlp.2.bias"@ {
        Some("visual.merger.mlp_1.bias"@)
    } else {
        None
    }
}

/// Rename a tensor of the vision encoder.
pub fn vision_internal_key(k: &str) -> (r: Option<String>)
    ensures
        is_text(r, renamed_vision_key(k@)),
{
    if same_text(k, "visual.merger.mlp.0.weight") {
        Some("visual.merger.mlp_0.weight".to_owned())
    } else if same_text(k, "visual.merger.mlp.0.bias") {
        Some("visual.merger.mlp_0.bias".to_owned())
    } else if same_text(k, "visual.merger.mlp.2.weight") {
        Some("visual.merger.mlp_1.weight".to_owned())
    } else if same_text(k, "visual.merger.mlp.2.bias") {
        Some("visual.merger.mlp_1.bias".to_owned())
    } else {
        None
    }
}

/// Rename the tensors of a vision encoder; none for those that keep their name.
pub fn remap_vision_keys(keys: &[String]) -> (r: Vec<Option<String>>)
    ensures
        r@.len() == keys@.len(),
        forall|i: int|
            0 <= i < keys@.len() ==> is_text(#[trigger] r@[i], renamed_vision_key(keys@[i]@)),
{
    let mut r: Vec<Option<String>> = Vec::new();
    let mut i: usize = 0;
    while i < keys.len()
        invariant
            i <= keys@.len(),
            r@.len() == i,
            forall|j: int|
                0 <= j < i ==> is_text(#[trigger] r@[j], renamed_vision_key(keys@[j]@)),
        decreases keys@.len() - i,
    {
        r.push(vision_internal_key(keys[i].as_str()));
        i = i + 1;
    }
    r
}

/// Choose the rearrangement of a tensor of the vision encoder: only the patch embedding, a
/// convolution over volumes, moves its input channels last.
pub fn transform_vision_tensor(key: &str, rank: usize) -> (r: Rearrangement)
    ensures
        r == (if key@ == "visual.patch_embed.proj.weight"@ && rank == 5 {
            Rearrangement::ChannelsLast3d
        } else {
            Rearrangement::Keep
        }),
{
    if same_text(key, "visual.patch_embed.proj.weight") && rank == 5 {
        Rearrangement::ChannelsLast3d
    } else {
        Rearrangement::Keep
    }
}

/// The temporal convolutions are skipped, whatever block they belong to.
pub proof fn temporal_convolutions_are_skipped(k: Seq<char>)
    requires
        occurs(k, ".time_conv."@),
    ensures
        vae_key(k) is None,
{
}

proof fn digits_hold_no_dot(n: nat)
    ensures
        forall|i: int| 0 <= i < digits(n).len() ==> #[trigger] digits(n)[i] != '.',
{
    decimal_round_trip(n);
    assert forall|i: int| 0 <= i < digits(n).len() implies #[trigger] digits(n)[i] != '.' by {
        assert(is_digit(digits(n)[i]));
    }
}

/// The flat encoder blocks come in groups of three: block `f` is residual block `f % 3` of group
/// `f / 3`, and every third one is the downsampler of its group.
pub proof fn encoder_blocks_are_grouped(f: nat, tail: Seq<char>, leaf: Seq<char>)
    requires
        f <= usize::MAX,
        f % 3 == 2 ==> tail == "resample.1."@ + leaf,
        !occurs("encoder.down_blocks."@ + digits(f) + "."@ + tail, ".time_conv."@),
    ensures
        vae_key("encoder.down_blocks."@ + digits(f) + "."@ + tail) == Some(
            if f % 3 == 2 {
                "encoder.down_blocks."@ + digits(f / 3) + ".downsamplers.0.resample_conv."@ + leaf
            } else {
                "encoder.down_blocks."@ + digits(f / 3) + ".resnets."@ + digits(f % 3) + "."@
                    + resnet_tail(tail)
            },
        ),
{
    reveal_strlit(".");
    let k = "encoder.down_blocks."@ + digits(f) + "."@ + tail;
    let p = "encoder.down_blocks."@;
    let rest = digits(f) + "."@ + tail;
    assert(k.take(p.len() as int) =~= p);
    assert(k.skip(p.len() as int) =~= rest);
    decimal_round_trip(f);
    digits_hold_no_dot(f);
    let n = digits(f).len() as int;
    assert(rest[n] == '.');
    assert forall|j: int| 0 <= j < n implies rest[j] != '.' by {
        assert(rest[j] == digits(f)[j]);
    }
    split_first_at(rest, '.', n);
    assert(rest.take(n) =~= digits(f));
    assert(rest.skip(n + 1) =~= tail);
    if f % 3 == 2 {
        let q = "resample.1."@;
        assert(tail.take(q.len() as int) =~= q);
        assert(tail.skip(q.len() as int) =~= leaf);
    }
}

/// Parts of a name that hold no dot end where they end: the first dot after them splits there.
proof fn first_dot_splits(part: Seq<char>, tail: Seq<char>)
    requires
        forall|i: int| 0 <= i < part.len() ==> #[trigger] part[i] != '.',
    ensures
        split_first(part + "."@ + tail, '.') == Some((part, tail)),
{
    reveal_strlit(".");
    let rest = part + "."@ + tail;
    let n = part.len() as int;
    assert(rest[n] == '.');
    assert forall|j: int| 0 <= j < n implies rest[j] != '.' by {
        assert(rest[j] == part[j]);
    }
    split_first_at(rest, '.', n);
    assert(rest.take(n) =~= part);
    assert(rest.skip(n + 1) =~= tail);
}

/// The decoder blocks keep their number: residual block `r` of block `b` goes by its own name, with
/// its tail renamed as in the encoder.
pub proof fn decoder_blocks_keep_their_number(b: Seq<char>, r: Seq<char>, tail: Seq<char>)
    requires
        forall|i: int| 0 <= i < b.len() ==> #[trigger] b[i] != '.',
        forall|i: int| 0 <= i < r.len() ==> #[trigger] r[i] != '.',
        !occurs("decoder.up_blocks."@ + b + ".resnets."@ + r + "."@ + tail, ".time_conv."@),
    ensures
        vae_key("decoder.up_blocks."@ + b + ".resnets."@ + r + "."@ + tail) == Some(
            "decoder.up_block"@ + b + ".resnets."@ + r + "."@ + resnet_tail(tail),
        ),
{
    reveal_strlit(".");
    reveal_strlit(".resnets.");
    reveal_strlit("resnets.");
    reveal_strlit("upsamplers.0.");
    reveal_strlit("encoder.down_blocks.");
    reveal_strlit("decoder.up_blocks.");
    let k = "decoder.up_blocks."@ + b + ".resnets."@ + r + "."@ + tail;
    let p = "decoder.up_blocks."@;
    let inner = "resnets."@ + (r + "."@ + tail);
    let rest = b + "."@ + inner;
    assert(".resnets."@ =~= "."@ + "resnets."@);
    assert(k.take(p.len() as int) =~= p);
    assert(k.skip(p.len() as int) =~= rest);
    let e = "encoder.down_blocks."@;
    assert(k[0] == 'd' && e[0] == 'e');
    if k.len() >= e.len() {
        assert(k.take(e.len() as int)[0] == 'd');
    }
    first_dot_splits(b, inner);
    let u = "upsamplers.0."@;
    assert(inner[0] == 'r' && u[0] == 'u');
    if inner.len() >= u.len() {
        assert(inner.take(u.len() as int)[0] == 'r');
    }
    let q = "resnets."@;
    assert(inner.take(q.len() as int) =~= q);
    assert(inner.skip(q.len() as int) =~= r + "."@ + tail);
    first_dot_splits(r, tail);
}

/// The upsampler of decoder block `b` goes by its own name.
pub proof fn decoder_upsamplers_are_named(b: Seq<char>, leaf: Seq<char>)
    requires
        forall|i: int| 0 <= i < b.len() ==> #[trigger] b[i] != '.',
        !occurs("decoder.up_blocks."@ + b + ".upsamplers.0.resample.1."@ + leaf, ".time_conv."@),
    ensures
        vae_key("decoder.up_blocks."@ + b + ".upsamplers.0.resample.1."@ + leaf) == Some(
            "decoder.up_block"@ + b + ".upsamplers.0.resample_conv."@ + leaf,
        ),
{
    reveal_strlit(".");
    reveal_strlit(".upsamplers.0.resample.1.");
    reveal_strlit("upsamplers.0.");
    reveal_strlit("resample.1.");
    reveal_strlit("encoder.down_blocks.");
    reveal_strlit("decoder.up_blocks.");
    let k = "decoder.up_blocks."@ + b + ".upsamplers.0.resample.1."@ + leaf;
    let p = "decoder.up_blocks."@;
    let u = "upsamplers.0."@;
    let q = "resample.1."@;
    let inner = u + (q + leaf);
    assert(".upsamplers.0.resample.1."@ =~= "."@ + u + q);
    assert(k.take(p.len() as int) =~= p);
    assert(k.skip(p.len() as int) =~= b + "."@ + inner);
    let e = "encoder.down_blocks."@;
    assert(k[0] == 'd' && e[0] == 'e');
    if k.len() >= e.len() {
        assert(k.take(e.len() as int)[0] == 'd');
    }
    first_dot_splits(b, inner);
    assert(inner.take(u.len() as int) =~= u);
    assert(inner.skip(u.len() as int) =~= q + leaf);
    assert((q + leaf).take(q.len() as int) =~= q);
    assert((q + leaf).skip(q.len() as int) =~= leaf);
}

/// A scale parameter becomes a weight, in a residual block and outside.
pub proof fn scales_become_weights(p: Seq<char>)
    ensures
        resnet_tail(p + ".gamma"@) == p + ".weight"@,
        generic_vae_key(p + ".gamma"@) == p + ".weight"@,
{
    let k = p + ".gamma"@;
    let g = ".gamma"@;
    assert(k.skip(k.len() - g.len()) =~= g);
    assert(k.take(k.len() - g.len()) =~= p);
}

/// Each layer of the merger is renamed as a whole: for either of its tensors, weight and bias,
/// layer `mlp.0` becomes `mlp_0` and layer `mlp.2` becomes `mlp_1`. No other tensor of the vision
/// encoder is renamed.
pub proof fn merger_layers_are_renamed(leaf: Seq<char>, k: Seq<char>)
    requires
        leaf == "weight"@ || leaf == "bias"@,
    ensures
        renamed_vision_key("visual.merger.mlp.0."@ + leaf) == Some("visual.merger.mlp_0."@ + leaf),
        renamed_vision_key("visual.merger.mlp.2."@ + leaf) == Some("visual.merger.mlp_1."@ + leaf),
        renamed_vision_key(k) is Some <==> exists|l: Seq<char>|
            (l == "weight"@ || l == "bias"@) && (k == #[trigger] ("visual.merger.mlp.0."@ + l) || k
                == "visual.merger.mlp.2."@ + l),
{
    reveal_strlit("weight");
    reveal_strlit("bias");
    reveal_strlit("visual.merger.mlp.0.");
    reveal_strlit("visual.merger.mlp.2.");
    reveal_strlit("visual.merger.mlp_0.");
    reveal_strlit("visual.merger.mlp_1.");
    reveal_strlit("visual.merger.mlp.0.weight");
    reveal_strlit("visual.merger.mlp.0.bias");
    reveal_strlit("visual.merger.mlp.2.weight");
    reveal_strlit("visual.merger.mlp.2.bias");
    reveal_strlit("visual.merger.mlp_0.weight");
    reveal_strlit("visual.merger.mlp_0.bias");
    reveal_strlit("visual.merger.mlp_1.weight");
    reveal_strlit("visual.merger.mlp_1.bias");
    assert("visual.merger.mlp.0."@ + "weight"@ =~= "visual.merger.mlp.0.weight"@);
    assert("visual.merger.mlp.0."@ + "bias"@ =~= "visual.merger.mlp.0.bias"@);
    assert("visual.merger.mlp.2."@ + "weight"@ =~= "visual.merger.mlp.2.weight"@);
    assert("visual.merger.mlp.2."@ + "bias"@ =~= "visual.merger.mlp.2.bias"@);
    assert("visual.merger.mlp_0."@ + "weight"@ =~= "visual.merger.mlp_0.weight"@);
    assert("visual.merger.mlp_0."@ + "bias"@ =~= "visual.merger.mlp_0.bias"@);
    assert("visual.merger.mlp_1."@ + "weight"@ =~= "visual.merger.mlp_1.weight"@);
    assert("visual.merger.mlp_1."@ + "bias"@ =~= "visual.merger.mlp_1.bias"@);
    assert("visual.merger.mlp.0.bias"@.len() == 24);
    assert("visual.merger.mlp.0.weight"@.len() == 26);
    assert("visual.merger.mlp.2.bias"@.len() == 24);
    assert("visual.merger.mlp.2.weight"@.len() == 26);
    assert("visual.merger.mlp.2.bias"@[18] != "visual.merger.mlp.0.bias"@[18]);
    assert("visual.merger.mlp.2.weight"@[18] != "visual.merger.mlp.0.weight"@[18]);
}

/// Replacing a text that stands once, at the end of `a`, leaves what is before and behind it.
proof fn single_replacement(a: Seq<char>, from: Seq<char>, b: Seq<char>, to: Seq<char>)
    requires
        from.len() > 0,
        forall|i: int| #[trigger] stands_at(a + from + b, from, i) ==> i == a.len(),
    ensures
        replaced(a + from + b, from, to) == a + to + b,
        occurs(a + from + b, from),
    decreases a.len(),
{
    let s = a + from + b;
    let n = a.len() as int;
    assert(s.subrange(n, n + from.len()) =~= from);
    assert(stands_at(s, from, n));
    if a.len() == 0 {
        assert(s.take(from.len() as int) =~= from);
        assert(s.skip(from.len() as int) =~= b);
        assert forall|i: int| !#[trigger] stands_at(b, from, i) by {
            if stands_at(b, from, i) {
                let m = from.len() + i;
                assert(s.subrange(m, m + from.len()) =~= b.subrange(i, i + from.len()));
                assert(stands_at(s, from, m));
            }
        }
        nothing_to_replace(b, from, to);
        assert(a + to + b =~= to + b);
    } else {
        if has_prefix(s, from) {
            assert(s.subrange(0, from.len() as int) =~= s.take(from.len() as int));
            assert(stands_at(s, from, 0));
        }
        let t = a.skip(1);
        assert(s.skip(1) =~= t + from + b);
        assert forall|i: int| #[trigger] stands_at(t + from + b, from, i) implies i == t.len() by {
            assert(s.subrange(i + 1, i + 1 + from.len()) =~= (t + from + b).subrange(
                i,
                i + from.len(),
            ));
            assert(stands_at(s, from, i + 1));
        }
        single_replacement(t, from, b, to);
        assert(seq![s[0]] + (t + to + b) =~= a + to + b);
    }
}

proof fn nothing_to_replace(s: Seq<char>, from: Seq<char>, to: Seq<char>)
    requires
        from.len() > 0,
        forall|i: int| !#[trigger] stands_at(s, from, i),
    ensures
        replaced(s, from, to) == s,
    decreases s.len(),
{
    if s.len() > 0 {
        if has_prefix(s, from) {
            assert(s.subrange(0, from.len() as int) =~= s.take(from.len() as int));
            assert(stands_at(s, from, 0));
        }
        let t = s.skip(1);
        assert forall|i: int| !#[trigger] stands_at(t, from, i) by {
            if stands_at(t, from, i) {
                assert(s.subrange(i + 1, i + 1 + from.len()) =~= t.subrange(i, i + from.len()));
                assert(stands_at(s, from, i + 1));
            }
        }
        nothing_to_replace(t, from, to);
        assert(seq![s[0]] + t =~= s);
    }
}

/// The text stands in the key at one place and none of the other texts does.
pub open spec fn stands_alone(k: Seq<char>, from: Seq<char>, at: int, others: Seq<Seq<char>>) -> bool {
    &&& forall|i: int| #[trigger] stands_at(k, from, i) ==> i == at
    &&& forall|o: int| 0 <= o < others.len() ==> !occurs(k, #[trigger] others[o])
}

/// The part of a transformer tensor's name that says which layer it belongs to is replaced, and what
/// stands before and behind it stays: the first and second projection of the image's and of the
/// text's feed-forward stay apart, as do the modulations of the two.
pub proof fn transformer_layers_are_renamed(block: Seq<char>, leaf: Seq<char>)
    ensures
        stands_alone(
            block + ".attn.to_out.0."@ + leaf,
            ".attn.to_out.0."@,
            block.len() as int,
            seq![],
        ) ==> renamed_transformer_key(block + ".attn.to_out.0."@ + leaf) == Some(
            block + ".attn.attn_to_out.0."@ + leaf,
        ),
        stands_alone(
            block + ".img_mod.1."@ + leaf,
            ".img_mod.1."@,
            block.len() as int,
            seq![".attn.to_out.0."@],
        ) ==> renamed_transformer_key(block + ".img_mod.1."@ + leaf) == Some(
            block + ".img_mod_linear."@ + leaf,
        ),
        stands_alone(
            block + ".txt_mod.1."@ + leaf,
            ".txt_mod.1."@,
            block.len() as int,
            seq![".attn.to_out.0."@, ".img_mod.1."@],
        ) ==> renamed_transformer_key(block + ".txt_mod.1."@ + leaf) == Some(
            block + ".txt_mod_linear."@ + leaf,
        ),
        stands_alone(
            block + ".img_mlp.net.0.proj."@ + leaf,
            ".img_mlp.net.0.proj."@,
            block.len() as int,
            seq![".attn.to_out.0."@, ".img_mod.1."@, ".txt_mod.1."@],
        ) ==> renamed_transformer_key(block + ".img_mlp.net.0.proj."@ + leaf) == Some(
            block + ".img_ff.mlp_in."@ + leaf,
        ),
        stands_alone(
            block + ".img_mlp.net.2."@ + leaf,
            ".img_mlp.net.2."@,
            block.len() as int,
            seq![".attn.to_out.0."@, ".img_mod.1."@, ".txt_mod.1."@, ".img_mlp.net.0.proj."@],
        ) ==> renamed_transformer_key(block + ".img_mlp.net.2."@ + leaf) == Some(
            block + ".img_ff.mlp_out."@ + leaf,
        ),
        stands_alone(
            block + ".txt_mlp.net.0.proj."@ + leaf,
            ".txt_mlp.net.0.proj."@,
            block.len() as int,
            seq![
                ".attn.to_out.0."@,
                ".img_mod.1."@,
                ".txt_mod.1."@,
                ".img_mlp.net.0.proj."@,
                ".img_mlp.net.2."@,
            ],
        ) ==> renamed_transformer_key(block + ".txt_mlp.net.0.proj."@ + leaf) == Some(
            block + ".txt_ff.mlp_in."@ + leaf,
        ),
        stands_alone(
            block + ".txt_mlp.net.2."@ + leaf,
            ".txt_mlp.net.2."@,
            block.len() as int,
            seq![
                ".attn.to_out.0."@,
                ".img_mod.1."@,
                ".txt_mod.1."@,
                ".img_mlp.net.0.proj."@,
                ".img_mlp.net.2."@,
                ".txt_mlp.net.0.proj."@,
            ],
        ) ==> renamed_transformer_key(block + ".txt_mlp.net.2."@ + leaf) == Some(
            block + ".txt_ff.mlp_out."@ + leaf,
        ),
{
    reveal_strlit(".attn.to_out.0.");
    reveal_strlit(".img_mod.1.");
    reveal_strlit(".txt_mod.1.");
    reveal_strlit(".img_mlp.net.0.proj.");
    reveal_strlit(".img_mlp.net.2.");
    reveal_strlit(".txt_mlp.net.0.proj.");
    reveal_strlit(".txt_mlp.net.2.");
    layer_is_renamed(block, ".attn.to_out.0."@, leaf, ".attn.attn_to_out.0."@, seq![]);
    let o1 = seq![".attn.to_out.0."@];
    layer_is_renamed(block, ".img_mod.1."@, leaf, ".img_mod_linear."@, o1);
    assert(o1[0] == ".attn.to_out.0."@);
    let o2 = seq![".attn.to_out.0."@, ".img_mod.1."@];
    layer_is_renamed(block, ".txt_mod.1."@, leaf, ".txt_mod_linear."@, o2);
    assert(o2[0] == ".attn.to_out.0."@);
    assert(o2[1] == ".img_mod.1."@);
    let o3 = seq![".attn.to_out.0."@, ".img_mod.1."@, ".txt_mod.1."@];
    layer_is_renamed(block, ".img_mlp.net.0.proj."@, leaf, ".img_ff.mlp_in."@, o3);
    assert(o3[0] == ".attn.to_out.0."@);
    assert(o3[1] == ".img_mod.1."@);
    assert(o3[2] == ".txt_mod.1."@);
    let o4 = seq![".attn.to_out.0."@, ".img_mod.1."@, ".txt_mod.1."@, ".img_mlp.net.0.proj."@];
    layer_is_renamed(block, ".img_mlp.net.2."@, leaf, ".img_ff.mlp_out."@, o4);
    assert(o4[0] == ".attn.to_out.0."@);
    assert(o4[1] == ".img_mod.1."@);
    assert(o4[2] == ".txt_mod.1."@);
    assert(o4[3] == ".img_mlp.net.0.proj."@);
    let o5 = seq![
        ".attn.to_out.0."@,
        ".img_mod.1."@,
        ".txt_mod.1."@,
        ".img_mlp.net.0.proj."@,
        ".img_mlp.net.2."@,
    ];
    layer_is_renamed(block, ".txt_mlp.net.0.proj."@, leaf, ".txt_ff.mlp_in."@, o5);
    assert(o5[0] == ".attn.to_out.0."@);
    assert(o5[1] == ".img_mod.1."@);
    assert(o5[2] == ".txt_mod.1."@);
    assert(o5[3] == ".img_mlp.net.0.proj."@);
    assert(o5[4] == ".img_mlp.net.2."@);
    let o6 = seq![
        ".attn.to_out.0."@,
        ".img_mod.1."@,
        ".txt_mod.1."@,
        ".img_mlp.net.0.proj."@,
        ".img_mlp.net.2."@,
        ".txt_mlp.net.0.proj."@,
    ];
    layer_is_renamed(block, ".txt_mlp.net.2."@, leaf, ".txt_ff.mlp_out."@, o6);
    assert(o6[0] == ".attn.to_out.0."@);
    assert(o6[1] == ".img_mod.1."@);
    assert(o6[2] == ".txt_mod.1."@);
    assert(o6[3] == ".img_mlp.net.0.proj."@);
    assert(o6[4] == ".img_mlp.net.2."@);
    assert(o6[5] == ".txt_mlp.net.0.proj."@);
}

proof fn layer_is_renamed(
    block: Seq<char>,
    from: Seq<char>,
    leaf: Seq<char>,
    to: Seq<char>,
    others: Seq<Seq<char>>,
)
    requires
        from.len() > 0,
    ensures
        stands_alone(block + from + leaf, from, block.len() as int, others) ==> occurs(
            block + from + leaf,
            from,
        ) && replaced(block + from + leaf, from, to) == block + to + leaf && forall|o: int|
            0 <= o < others.len() ==> !occurs(block + from + leaf, #[trigger] others[o]),
{
    if stands_alone(block + from + leaf, from, block.len() as int, others) {
        single_replacement(block, from, leaf, to);
    }
}

/// A tensor whose name holds none of the layers' names keeps its name.
pub proof fn other_transformer_tensors_keep_their_name(k: Seq<char>)
    requires
        !occurs(k, ".attn.to_out.0."@),
        !occurs(k, ".img_mod.1."@),
        !occurs(k, ".txt_mod.1."@),
        !occurs(k, ".img_mlp.net.0.proj."@),
        !occurs(k, ".img_mlp.net.2."@),
        !occurs(k, ".txt_mlp.net.0.proj."@),
        !occurs(k, ".txt_mlp.net.2."@),
    ensures
        renamed_transformer_key(k) is None,
{
}

/// In a residual block both convolutions move below `conv3d`, the shortcut becomes the skip
/// convolution, and any other tensor keeps its name.
pub proof fn residual_convolutions_are_renamed(parent: Seq<char>, leaf: Seq<char>)
    requires
        forall|i: int| 0 <= i < leaf.len() ==> #[trigger] leaf[i] != '.',
        leaf != "gamma"@,
    ensures
        resnet_tail("conv1."@ + leaf) == "conv1.conv3d."@ + leaf,
        resnet_tail("conv2."@ + leaf) == "conv2.conv3d."@ + leaf,
        resnet_tail("conv_shortcut."@ + leaf) == "skip_conv.conv3d."@ + leaf,
        parent != "conv1"@ && parent != "conv2"@ && parent != "conv_shortcut"@ ==> resnet_tail(
            parent + "."@ + leaf,
        ) == parent + "."@ + leaf,
{
    reveal_strlit(".");
    reveal_strlit("conv1");
    reveal_strlit("conv1.");
    reveal_strlit("conv2");
    reveal_strlit("conv2.");
    reveal_strlit("conv_shortcut");
    reveal_strlit("conv_shortcut.");
    reveal_strlit(".conv3d.");
    reveal_strlit("conv1.conv3d.");
    reveal_strlit("conv2.conv3d.");
    assert("conv1"@ + "."@ =~= "conv1."@);
    assert("conv2"@ + "."@ =~= "conv2."@);
    assert("conv_shortcut"@ + "."@ =~= "conv_shortcut."@);
    assert("conv1"@ + ".conv3d."@ =~= "conv1.conv3d."@);
    assert("conv2"@ + ".conv3d."@ =~= "conv2.conv3d."@);
    last_dot_splits("conv1"@, leaf);
    last_dot_splits("conv2"@, leaf);
    last_dot_splits("conv_shortcut"@, leaf);
    last_dot_splits(parent, leaf);
    assert("conv1"@ != "conv2"@) by {
        assert("conv1"@[4] != "conv2"@[4]);
    }
    assert("conv_shortcut"@.len() != 5);
}

/// Splitting at the last dot, where what follows it holds none; a name so split ends in `.gamma` only
/// where its last part is `gamma`.
proof fn last_dot_splits(parent: Seq<char>, leaf: Seq<char>)
    requires
        forall|i: int| 0 <= i < leaf.len() ==> #[trigger] leaf[i] != '.',
    ensures
        split_last(parent + "."@ + leaf, '.') == Some((parent, leaf)),
        leaf != "gamma"@ ==> without_suffix(parent + "."@ + leaf, ".gamma"@) is None,
{
    reveal_strlit(".");
    reveal_strlit("gamma");
    reveal_strlit(".gamma");
    let k = parent + "."@ + leaf;
    let n = parent.len() as int;
    assert(k[n] == '.');
    assert forall|j: int| n < j < k.len() implies k[j] != '.' by {
        assert(k[j] == leaf[j - n - 1]);
    }
    split_last_at(k, '.', n);
    assert(k.take(n) =~= parent);
    assert(k.skip(n + 1) =~= leaf);
    if has_suffix(k, ".gamma"@) {
        let m = k.len() - 6;
        let s = k.skip(m);
        assert(s == ".gamma"@);
        assert(k[m] == s[0]);
        assert(m <= n);
        if m < n {
            assert(k[n] == s[n - m]);
        }
        assert(m == n);
        assert(leaf =~= "gamma"@) by {
            assert forall|j: int| 0 <= j < 5 implies leaf[j] == "gamma"@[j] by {
                assert(leaf[j] == k[n + 1 + j]);
                assert(k[n + 1 + j] == s[1 + j]);
            }
        }
    }
}

/// Outside the blocks a convolution over time, whichever part of the model it belongs to, moves below
/// `conv3d`, and any other tensor keeps its name.
pub proof fn causal_convolutions_are_renamed(
    part: Seq<char>,
    name: Seq<char>,
    leaf: Seq<char>,
)
    requires
        forall|i: int| 0 <= i < leaf.len() ==> #[trigger] leaf[i] != '.',
        forall|i: int| 0 <= i < name.len() ==> #[trigger] name[i] != '.',
        leaf != "gamma"@,
    ensures
        name == "conv_in"@ || name == "conv_out"@ || name == "conv1"@ || name == "conv2"@ || name
            == "quant_conv"@ || name == "post_quant_conv"@ ==> generic_vae_key(
            part + "."@ + name + "."@ + leaf,
        ) == part + "."@ + name + ".conv3d."@ + leaf,
        !(name == "conv_in"@ || name == "conv_out"@ || name == "conv1"@ || name == "conv2"@ || name
            == "quant_conv"@ || name == "post_quant_conv"@) ==> generic_vae_key(
            part + "."@ + name + "."@ + leaf,
        ) == part + "."@ + name + "."@ + leaf,
{
    last_dot_splits(part + "."@ + name, leaf);
    last_dot_splits(part, name);
}

/// The tensors of the autoencoder: scales become flat, the kernels of convolutions over volumes and
/// over planes have their input channels moved behind all else, and the rest stays as it is.
pub proof fn kernels_move_their_channels_last(p: Seq<char>, k: Seq<char>, rank: int)
    ensures
        vae_rearrangement(p + ".gamma"@, rank) == Rearrangement::Flatten,
        axes_of(vae_rearrangement(p + ".weight"@, 5)) == seq![0int, 2, 3, 4, 1],
        axes_of(vae_rearrangement(p + ".weight"@, 4)) == seq![0int, 2, 3, 1],
        rank != 4 && rank != 5 ==> vae_rearrangement(p + ".weight"@, rank) == Rearrangement::Keep,
        !has_suffix(k, ".gamma"@) && !has_suffix(k, ".weight"@) ==> vae_rearrangement(k, rank)
            == Rearrangement::Keep,
{
    reveal_strlit(".gamma");
    reveal_strlit(".weight");
    let g = p + ".gamma"@;
    let w = p + ".weight"@;
    assert(g.skip(g.len() - 6) =~= ".gamma"@);
    assert(w.skip(w.len() - 7) =~= ".weight"@);
    if has_suffix(w, ".gamma"@) {
        assert(w.skip(w.len() - 6).last() == w.last());
        assert(w.last() == ".weight"@[6]);
        assert(".gamma"@.last() == ".gamma"@[5]);
    }
}

/// What is neither a tensor of an encoder block nor of a decoder block nor of a temporal convolution
/// is renamed by its last parts alone.
pub proof fn tensors_outside_the_blocks(k: Seq<char>)
    requires
        !occurs(k, ".time_conv."@),
        !has_prefix(k, "encoder.down_blocks."@),
        !has_prefix(k, "decoder.up_blocks."@),
    ensures
        vae_key(k) == Some(generic_vae_key(k)),
{
}

/// Of a downsampler in the encoder only the resampling convolution is taken over, and of a decoder
/// block only its residual blocks and the convolution of its upsampler.
pub proof fn other_tensors_of_blocks_are_skipped(f: nat, b: Seq<char>, tail: Seq<char>)
    requires
        f <= usize::MAX,
        forall|i: int| 0 <= i < b.len() ==> #[trigger] b[i] != '.',
    ensures
        f % 3 == 2 && !has_prefix(tail, "resample.1."@) ==> vae_key(
            "encoder.down_blocks."@ + digits(f) + "."@ + tail,
        ) is None,
        !has_prefix(tail, "upsamplers.0."@) && !has_prefix(tail, "resnets."@) ==> vae_key(
            "decoder.up_blocks."@ + b + "."@ + tail,
        ) is None,
{
    reveal_strlit("encoder.down_blocks.");
    reveal_strlit("decoder.up_blocks.");
    decimal_round_trip(f);
    digits_hold_no_dot(f);
    first_dot_splits(digits(f), tail);
    first_dot_splits(b, tail);
    let e = "encoder.down_blocks."@;
    let k = e + digits(f) + "."@ + tail;
    assert(k.take(e.len() as int) =~= e);
    assert(k.skip(e.len() as int) =~= digits(f) + "."@ + tail);
    let d = "decoder.up_blocks."@;
    let l = d + b + "."@ + tail;
    assert(l.take(d.len() as int) =~= d);
    assert(l.skip(d.len() as int) =~= b + "."@ + tail);
    assert(l[0] == 'd' && e[0] == 'e');
    if l.len() >= e.len() {
        assert(l.take(e.len() as int)[0] == 'd');
    }
}

} // verus!
