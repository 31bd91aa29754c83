use mlx_gen_vision::binary32::Binary32;
use mlx_gen_vision::qwen::pipeline::{
    channels_first, init_time_step, latent_shape, noise_shape, pack_latents,
    preprocess_init_image, slice_seq, unpack_latents, Scaling,
};
use mlx_gen_vision::qwen::request::Image;
use mlx_gen_vision::qwen::sampler::FlowMatchSampler;
use mlx_gen_vision::qwen::transformer::{
    adaptable_block, adaptable_paths, assign_residuals, build_joint_mask, build_modulate_index,
    control_modules, feed_forward_target, transformer_modules, FeedForwardPart,
    QwenControlNetConfig, QwenTransformerConfig, Residual, MASK_FILL,
};

fn f(v: f32) -> Binary32 {
    Binary32 { bits: v.to_bits() }
}

#[test]
fn noise_shape_is_packed() {
    assert_eq!(noise_shape(1024, 1024), [1, 4096, 64]);
}

#[test]
fn unpack_inverts_to_vae_latent_shape() {
    // h=768, w=512
    assert_eq!(noise_shape(512, 768), [1, 48 * 32, 64]);
    let packed: Vec<u32> = (0..48 * 32 * 64).collect();
    let lat = unpack_latents(&packed, 512, 768).unwrap();
    // [1, 16, h/8, w/8]
    assert_eq!(latent_shape(512, 768), [1, 16, 96, 64]);
    assert_eq!(lat.len(), 16 * 96 * 64);
}

#[test]
fn pack_is_inverse_of_unpack() {
    let packed: Vec<u32> = (0..48 * 32 * 64).collect();
    let vae_latent = unpack_latents(&packed, 512, 768).unwrap();
    let repacked = pack_latents(&vae_latent, 512, 768).unwrap();
    assert_eq!(repacked.len(), packed.len());
    assert!(repacked.iter().zip(&packed).all(|(x, y)| x == y));
    assert_ne!(vae_latent, packed);
}

#[test]
fn unpack_is_inverse_of_pack() {
    let latent: Vec<u32> = (0..64 * 6).collect();
    // Two rows and three columns of patches.
    let packed = pack_latents(&latent, 48, 32).unwrap();
    assert_eq!(unpack_latents(&packed, 48, 32).unwrap(), latent);
    // The first token holds the first two rows and columns of every channel.
    assert_eq!(packed[0..8], [0, 1, 6, 7, 24, 25, 30, 31]);
}

#[test]
fn wrong_numbers_of_values_are_refused() {
    let err = unpack_latents(&[0u8; 63], 16, 16).unwrap_err();
    assert_eq!((err.len, err.expected), (63, 64));
    assert!(pack_latents(&[0u8; 65], 16, 16).is_err());
    assert_eq!(pack_latents::<u8>(&[], 15, 16).unwrap(), Vec::<u8>::new());
}

#[test]
fn init_time_step_matches_fork() {
    // txt2img: no/zero strength is 0.
    assert_eq!(init_time_step(4, None), 0);
    assert_eq!(init_time_step(4, Some(f(0.0))), 0);
    // floor(steps * strength), clamped to >= 1.
    assert_eq!(init_time_step(4, Some(f(0.6))), 2); // floor(2.4)
    assert_eq!(init_time_step(8, Some(f(0.5))), 4);
    assert_eq!(init_time_step(4, Some(f(0.1))), 1); // floor(0.4)=0, at least 1
    assert_eq!(init_time_step(4, Some(f(1.0))), 4);
    assert_eq!(init_time_step(4, Some(f(2.0))), 4); // strength clamps to 1.0
}

#[test]
fn start_steps_follow_single_precision() {
    let strengths = [
        1e-45f32, 1e-30, 0.001, 0.1, 0.25, 0.3, 0.33333334, 0.5, 0.7, 0.99999994, 1.0, 3.5,
        f32::INFINITY,
    ];
    let counts = [
        0usize,
        1,
        3,
        50,
        1000,
        16_777_215,
        16_777_216,
        16_777_217,
        16_777_219,
        4_294_967_295,
        1 << 40,
        (1 << 53) + 1,
        usize::MAX,
    ];
    for n in counts {
        for s in strengths {
            let want = ((n as f32 * s.clamp(0.0, 1.0)) as usize).max(1);
            assert_eq!(init_time_step(n, Some(f(s))), want, "{n} {s}");
        }
        for s in [-1.0f32, -0.0, f32::NAN] {
            assert_eq!(init_time_step(n, Some(f(s))), 0);
        }
    }
}

#[test]
fn the_noise_is_the_prefix() {
    let noise = vec![1, 2, 3, 4];
    let mut both = noise.clone();
    both.extend([9, 9]);
    assert_eq!(slice_seq(&both, 2, 2), noise);
    assert_eq!(slice_seq(&both, 2, 0), Vec::<i32>::new());
}

#[test]
fn images_have_to_fill_their_size() {
    let image = Image { width: 2, height: 2, pixels: vec![0; 12] };
    assert_eq!(preprocess_init_image(&image, 2, 2), Ok(Scaling::Keep));
    assert_eq!(preprocess_init_image(&image, 2, 4), Ok(Scaling::Resample));
    let short = Image { width: 2, height: 2, pixels: vec![0; 11] };
    let err = preprocess_init_image(&short, 2, 2).unwrap_err();
    assert_eq!(err.message(), "init image pixel buffer 11 != 2x2x3");
    let huge = Image { width: u32::MAX, height: u32::MAX, pixels: vec![0; 3] };
    assert!(preprocess_init_image(&huge, 2, 2).is_err());
}

#[test]
fn planes_follow_each_other() {
    let pixels = [1, 2, 3, 4, 5, 6];
    assert_eq!(channels_first(&pixels, 3), vec![1, 4, 2, 5, 3, 6]);
}

#[test]
fn timestep_is_the_noise_level() {
    let sigmas = vec![f(1.0), f(0.857_326_5), f(0.600_719_4), f(0.002_994_012), f(0.0)];
    let s = FlowMatchSampler::new(sigmas.clone());
    assert_eq!(s.num_steps(), 4);
    for i in 0..4 {
        assert_eq!(s.timestep(i), s.sigma(i));
        assert_eq!(s.sigma(i), sigmas[i]);
        assert_eq!(s.step_levels(i), (sigmas[i], sigmas[i + 1]));
    }
    assert_eq!(s.sigma(4), f(0.0));
}

#[test]
fn published_transformer_dimensions() {
    let t = QwenTransformerConfig::qwen_image();
    assert_eq!(t.inner_dim(), 3072);
    assert_eq!(t.num_layers, 60);
    assert_eq!(t.txt_norm_eps, f(1e-6));
    assert!(!t.zero_cond_t);
    let e = QwenTransformerConfig::qwen_image_edit();
    assert!(e.zero_cond_t);
    assert_eq!(e.joint_attention_dim, 3584);
    let c = QwenControlNetConfig::qwen_image_union();
    assert_eq!((c.num_layers, c.num_heads, c.head_dim), (5, 24, 128));
}

#[test]
fn five_residuals_serve_twelve_blocks_each() {
    let r = assign_residuals(60, Some(5));
    assert_eq!(r.len(), 60);
    for (i, x) in r.iter().enumerate() {
        assert_eq!(*x, Some(i / 12));
    }
    assert_eq!(assign_residuals(7, Some(3)), [0, 0, 0, 1, 1, 1, 2].map(Some).to_vec());
    assert_eq!(assign_residuals(2, Some(5)), vec![Some(0), Some(1)]);
    assert_eq!(assign_residuals(2, None), vec![None, None]);
}

#[test]
fn forward_passes_know_their_grids() {
    let edit = QwenTransformerConfig::qwen_image_edit();
    let p = edit.forward(2, 1, 2, &[(1, 1), (2, 1)]);
    assert_eq!(p.shapes, vec![(1, 2), (1, 1), (2, 1)]);
    assert_eq!(p.modulate, Some(vec![0, 0, 1, 1, 1, 0, 0, 1, 1, 1]));
    assert!(p.residuals.iter().all(|r| r.is_none()));
    // Without a reference the flag does nothing.
    let p = edit.forward_control(1, 1, 2, &[], Some(5), f(0.5));
    assert_eq!(p.modulate, None);
    assert_eq!(p.residuals[0], Some(Residual { index: 0, scale: f(0.5) }));
    assert_eq!(p.residuals[59], Some(Residual { index: 4, scale: f(0.5) }));
    // Without a control branch the scale does nothing.
    let p = edit.forward_control(1, 1, 2, &[], None, f(0.5));
    assert!(p.residuals.len() == 60 && p.residuals.iter().all(|r| r.is_none()));
    let plain = QwenTransformerConfig::qwen_image().forward(1, 1, 1, &[(1, 1)]);
    assert_eq!(plain.modulate, None);
    assert_eq!(build_modulate_index(1, 0, 5, &[(1, 1)]), vec![1]);
}

#[test]
fn padded_text_keys_are_masked() {
    assert_eq!(build_joint_mask(None, 1, 2, 1), None);
    assert_eq!(build_joint_mask(Some(&[1, 1]), 1, 2, 1), None);
    let m = build_joint_mask(Some(&[1, 0, 0, 1]), 2, 2, 1).unwrap();
    let (z, x) = (f(0.0), f(-1e9));
    assert_eq!(x.bits, MASK_FILL);
    assert_eq!(m, vec![z, x, z, x, z, z]);
}

#[test]
fn adapters_find_their_modules() {
    assert_eq!(adaptable_block(&["transformer_blocks", "7", "attn"], 60), Some(7));
    assert_eq!(adaptable_block(&["transformer_blocks", "60"], 60), None);
    assert_eq!(adaptable_block(&["transformer_blocks", "x"], 60), None);
    assert_eq!(adaptable_block(&["transformer_blocks"], 60), None);
    assert_eq!(adaptable_block(&["img_in", "7"], 60), None);
    assert_eq!(feed_forward_target(&["net", "0", "proj"]), Some(FeedForwardPart::MlpIn));
    assert_eq!(feed_forward_target(&["net", "2"]), Some(FeedForwardPart::MlpOut));
    assert_eq!(feed_forward_target(&["net", "1"]), None);
    let blocks = vec![vec!["a".to_string(), "b.c".to_string()], vec![], vec!["a".to_string()]];
    assert_eq!(
        adaptable_paths(&blocks),
        vec!["transformer_blocks.0.a", "transformer_blocks.0.b.c", "transformer_blocks.2.a"]
    );
}

#[test]
fn modules_are_looked_up_in_order() {
    assert_eq!(
        transformer_modules("", 2),
        vec![
            "transformer_blocks.0",
            "transformer_blocks.1",
            "img_in",
            "txt_norm.weight",
            "txt_in",
            "time_text_embed",
            "norm_out",
            "proj_out",
        ]
    );
    assert_eq!(
        control_modules("c", 1),
        vec![
            "c.transformer_blocks.0",
            "c.controlnet_blocks.0",
            "c.img_in",
            "c.txt_norm.weight",
            "c.txt_in",
            "c.time_text_embed",
            "c.controlnet_x_embedder",
        ]
    );
}

/// The production noise levels of a run.
fn production_sigmas(steps: usize, width: u32, height: u32) -> Vec<f32> {
    let last = 1.0_f32 / steps as f32;
    let m = (0.9_f32 - 0.5) / (8192.0 - 256.0);
    let mu = m * (width as f32 * height as f32 / 256.0) + (0.5 - m * 256.0);
    let e = mu.exp();
    let shifted: Vec<f32> = (0..steps)
        .map(|i| 1.0 + (last - 1.0) * (i as f32) / ((steps - 1) as f32))
        .map(|s| e / (e + (1.0 / s - 1.0)))
        .collect();
    let scale = (1.0 - shifted[steps - 1]) / (1.0 - 0.02);
    let mut sigmas: Vec<f32> = shifted.iter().map(|s| 1.0 - (1.0 - s) / scale).collect();
    sigmas.push(0.0);
    sigmas
}

fn patterns(values: &[f32]) -> Vec<Binary32> {
    values.iter().map(|v| Binary32 { bits: v.to_bits() }).collect()
}

#[test]
fn timestep_is_raw_sigma() {
    // The model timestep is the raw noise level.
    let s = FlowMatchSampler::new(patterns(&[1.0, 0.857_326_5, 0.600_719_4, 0.002_994_012, 0.0]));
    assert_eq!(s.num_steps(), 4);
    for i in 0..4 {
        assert_eq!(s.timestep(i), s.sigma(i));
    }
}

#[test]
fn wrapping_production_scheduler_preserves_sigmas() {
    let sigmas = production_sigmas(8, 1024, 1024);
    let s = FlowMatchSampler::new(patterns(&sigmas));
    assert_eq!(s.num_steps(), 8);
    for (i, want) in sigmas.iter().enumerate() {
        assert_eq!(f32::from_bits(s.sigma(i).bits), *want);
        if i < 8 {
            assert_eq!(f32::from_bits(s.timestep(i).bits), *want);
        }
    }
}

#[test]
fn a_step_leads_to_the_next_level() {
    let levels = patterns(&[1.0, 0.5, 0.0]);
    let s = FlowMatchSampler::new(patterns(&[1.0, 0.5, 0.0]));
    assert_eq!(s.step_levels(0), (levels[0], levels[1]));
    assert_eq!(s.step_levels(1), (levels[1], levels[2]));
}
