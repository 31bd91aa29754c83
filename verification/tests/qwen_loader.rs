use mlx_gen_vision::qwen::loader::{
    remap_generic_vae, remap_resnet_tail, remap_transformer_keys, remap_vae_keys,
    remap_vision_keys, transform_vae_tensor, transform_vision_tensor, transformer_internal_key, vae_internal_key,
    vision_internal_key, Rearrangement,
};

#[test]
fn transformer_renames() {
    // a representative key from each rename family.
    let cases = [
        (
            "transformer_blocks.7.attn.to_out.0.weight",
            "transformer_blocks.7.attn.attn_to_out.0.weight",
        ),
        (
            "transformer_blocks.12.img_mod.1.bias",
            "transformer_blocks.12.img_mod_linear.bias",
        ),
        (
            "transformer_blocks.3.txt_mlp.net.0.proj.weight",
            "transformer_blocks.3.txt_ff.mlp_in.weight",
        ),
        (
            "transformer_blocks.3.img_mlp.net.2.weight",
            "transformer_blocks.3.img_ff.mlp_out.weight",
        ),
    ];
    const RENAMES: &[(&str, &str)] = &[
        (".attn.to_out.0.", ".attn.attn_to_out.0."),
        (".img_mod.1.", ".img_mod_linear."),
        (".txt_mod.1.", ".txt_mod_linear."),
        (".img_mlp.net.0.proj.", ".img_ff.mlp_in."),
        (".img_mlp.net.2.", ".img_ff.mlp_out."),
        (".txt_mlp.net.0.proj.", ".txt_ff.mlp_in."),
        (".txt_mlp.net.2.", ".txt_ff.mlp_out."),
    ];
    for (from, want) in cases {
        let got = transformer_internal_key(from).unwrap();
        assert_eq!(got, want);
        let (part, new) = RENAMES.iter().find(|(f, _)| from.contains(f)).unwrap();
        assert_eq!(got, from.replace(part, new));
    }
}

#[test]
fn every_rename_family_is_covered() {
    let cases = [
        ("b.attn.to_out.0.w", "b.attn.attn_to_out.0.w"),
        ("b.img_mod.1.w", "b.img_mod_linear.w"),
        ("b.txt_mod.1.w", "b.txt_mod_linear.w"),
        ("b.img_mlp.net.0.proj.w", "b.img_ff.mlp_in.w"),
        ("b.img_mlp.net.2.w", "b.img_ff.mlp_out.w"),
        ("b.txt_mlp.net.0.proj.w", "b.txt_ff.mlp_in.w"),
        ("b.txt_mlp.net.2.w", "b.txt_ff.mlp_out.w"),
    ];
    for (from, want) in cases {
        assert_eq!(transformer_internal_key(from).unwrap(), want);
    }
    assert!(transformer_internal_key("img_in.weight").is_none());
    let keys = vec!["img_in.weight".to_string(), "b.img_mod.1.w".to_string()];
    assert_eq!(
        remap_transformer_keys(&keys),
        vec![None, Some("b.img_mod_linear.w".to_string())]
    );
}

#[test]
fn vae_encoder_flat_to_grouped() {
    assert_eq!(
        vae_internal_key("encoder.down_blocks.0.conv1.weight").unwrap(),
        "encoder.down_blocks.0.resnets.0.conv1.conv3d.weight"
    );
    assert_eq!(
        vae_internal_key("encoder.down_blocks.1.norm2.gamma").unwrap(),
        "encoder.down_blocks.0.resnets.1.norm2.weight"
    );
    assert_eq!(
        vae_internal_key("encoder.down_blocks.2.resample.1.bias").unwrap(),
        "encoder.down_blocks.0.downsamplers.0.resample_conv.bias"
    );
    assert_eq!(
        vae_internal_key("encoder.down_blocks.3.conv_shortcut.weight").unwrap(),
        "encoder.down_blocks.1.resnets.0.skip_conv.conv3d.weight"
    );
    assert_eq!(
        vae_internal_key("encoder.down_blocks.9.conv1.weight").unwrap(),
        "encoder.down_blocks.3.resnets.0.conv1.conv3d.weight"
    );
    assert_eq!(
        vae_internal_key("encoder.down_blocks.10.conv2.bias").unwrap(),
        "encoder.down_blocks.3.resnets.1.conv2.conv3d.bias"
    );
    assert!(vae_internal_key("encoder.down_blocks.8.time_conv.weight").is_none());
}

#[test]
fn vae_decoder_and_generic() {
    assert_eq!(
        vae_internal_key("decoder.up_blocks.0.resnets.2.conv1.weight").unwrap(),
        "decoder.up_block0.resnets.2.conv1.conv3d.weight"
    );
    assert_eq!(
        vae_internal_key("decoder.up_blocks.1.resnets.0.conv_shortcut.weight").unwrap(),
        "decoder.up_block1.resnets.0.skip_conv.conv3d.weight"
    );
    assert_eq!(
        vae_internal_key("decoder.up_blocks.0.upsamplers.0.resample.1.weight").unwrap(),
        "decoder.up_block0.upsamplers.0.resample_conv.weight"
    );
    assert_eq!(
        vae_internal_key("decoder.conv_in.weight").unwrap(),
        "decoder.conv_in.conv3d.weight"
    );
    assert_eq!(
        vae_internal_key("decoder.norm_out.gamma").unwrap(),
        "decoder.norm_out.weight"
    );
    assert_eq!(
        vae_internal_key("decoder.mid_block.attentions.0.to_qkv.weight").unwrap(),
        "decoder.mid_block.attentions.0.to_qkv.weight"
    );
    assert_eq!(
        vae_internal_key("decoder.mid_block.attentions.0.norm.gamma").unwrap(),
        "decoder.mid_block.attentions.0.norm.weight"
    );
    assert_eq!(
        vae_internal_key("post_quant_conv.weight").unwrap(),
        "post_quant_conv.conv3d.weight"
    );
}

#[test]
fn tails_and_generic_names() {
    assert_eq!(remap_resnet_tail("norm1.gamma"), "norm1.weight");
    assert_eq!(remap_resnet_tail("conv2.bias"), "conv2.conv3d.bias");
    assert_eq!(remap_resnet_tail("conv_shortcut.bias"), "skip_conv.conv3d.bias");
    assert_eq!(remap_resnet_tail("other.bias"), "other.bias");
    assert_eq!(remap_generic_vae("quant_conv.bias"), "quant_conv.conv3d.bias");
    assert_eq!(remap_generic_vae("a.b.norm.gamma"), "a.b.norm.weight");
    assert_eq!(remap_generic_vae("plain"), "plain");
    let keys = vec![
        "encoder.down_blocks.5.time_conv.bias".to_string(),
        "quant_conv.bias".to_string(),
    ];
    assert_eq!(
        remap_vae_keys(&keys),
        vec![None, Some("quant_conv.conv3d.bias".to_string())]
    );
}

#[test]
fn rearrangements() {
    assert!(matches!(
        transform_vae_tensor("decoder.conv_in.weight", 5),
        Rearrangement::ChannelsLast3d
    ));
    assert!(matches!(
        transform_vae_tensor("decoder.mid_block.attentions.0.to_qkv.weight", 4),
        Rearrangement::ChannelsLast2d
    ));
    assert!(matches!(
        transform_vae_tensor("decoder.norm_out.gamma", 3),
        Rearrangement::Flatten
    ));
    assert!(matches!(
        transform_vae_tensor("decoder.conv_in.bias", 1),
        Rearrangement::Keep
    ));
    assert!(matches!(
        transform_vision_tensor("visual.patch_embed.proj.weight", 5),
        Rearrangement::ChannelsLast3d
    ));
    assert!(matches!(
        transform_vision_tensor("visual.patch_embed.proj.weight", 2),
        Rearrangement::Keep
    ));
    assert_eq!(
        vision_internal_key("visual.merger.mlp.2.bias").unwrap(),
        "visual.merger.mlp_1.bias"
    );
    assert!(vision_internal_key("visual.merger.ln_q.weight").is_none());
    let keys = vec!["visual.merger.ln_q.weight".to_string(), "visual.merger.mlp.0.bias".to_string()];
    assert_eq!(
        remap_vision_keys(&keys),
        vec![None, Some("visual.merger.mlp_0.bias".to_string())]
    );
}
