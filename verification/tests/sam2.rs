use mlx_gen_vision::binary32::Binary32;
use mlx_gen_vision::layout::{crop_hw, window_partition, window_unpartition, Grid};
use mlx_gen_vision::sam2::config::{Sam2ImageEncoderConfig, Sam2ModelSize};
use mlx_gen_vision::sam2::hiera::{attended_geometry, block_specs, is_trunk, stage_ends};
use mlx_gen_vision::sam2::image_encoder::{fpn_steps, kept_levels};
use mlx_gen_vision::sam2::memory::{plan_rope, rope_grid};
use mlx_gen_vision::sam2::sam_heads::{
    best_low_mask, candidates, dynamic_multimask, gate_masks, is_object, point_token, predict,
    predict_given_best, select_obj_ptr_token, stability_score, token_rows, PointToken, NO_OBJECT_LOGIT,
};
use mlx_gen_vision::sam2::util::{argmax_f32, join, repeat_rows, take_range, threshold_mask};
use mlx_gen_vision::sam2::video_predictor::{
    check_correction_points, clip_previous, maskmem_prev_frame, point_input, Conditioning,
    FrameOut, Inference, PointInput, Step, VideoError, VideoState, NUM_MASKMEM,
};

fn f(v: f32) -> Binary32 {
    Binary32 { bits: v.to_bits() }
}

fn fs(v: &[f32]) -> Vec<Binary32> {
    v.iter().map(|x| f(*x)).collect()
}

/// The derived per-stage output channels (dim_out at each stage end) equal the pyramid's
/// `backbone_channel_list` (reversed: the list is coarse to fine, stage ends are fine to coarse).
#[test]
fn block_specs_channels_match_fpn_config() {
    for cfg in [
        Sam2ImageEncoderConfig::tiny(),
        Sam2ImageEncoderConfig::small(),
        Sam2ImageEncoderConfig::base_plus(),
        Sam2ImageEncoderConfig::large(),
    ] {
        let specs = block_specs(&cfg.hiera);
        let ends = stage_ends(&cfg.hiera);
        let stage_channels: Vec<i32> = ends.iter().map(|&e| specs[e as usize].dim_out).collect();
        let mut expected = cfg.fpn.backbone_channel_list.clone();
        expected.reverse(); // coarse to fine list vs fine to coarse stage ends
        assert_eq!(
            stage_channels, expected,
            "stage channels {stage_channels:?} != reversed backbone {expected:?}"
        );
    }
}

/// Large-model spot checks: the stage-boundary (q-pool) blocks use the *previous* stage's window,
/// heads double per stage, and globals window-0.
#[test]
fn block_specs_large_known_values() {
    let cfg = Sam2ImageEncoderConfig::large().hiera;
    let s = block_specs(&cfg);
    assert_eq!(s.len(), 48);
    assert_eq!(stage_ends(&cfg), vec![1, 7, 43, 47]);

    // q-pool / stage-boundary blocks: 2, 8, 44.
    let check = |i: usize, dim, dim_out, heads, window| {
        assert_eq!(s[i].dim, dim, "block {i} dim");
        assert_eq!(s[i].dim_out, dim_out, "block {i} dim_out");
        assert_eq!(s[i].num_heads, heads, "block {i} heads");
        assert_eq!(s[i].window, window, "block {i} window");
        assert_eq!(s[i].q_stride, Some(2), "block {i} q_stride");
    };
    check(2, 144, 288, 4, 8); // window 8 = stage-1 spec, read before the increment
    check(8, 288, 576, 8, 4);
    check(44, 576, 1152, 16, 16);

    // Non-boundary + global blocks.
    assert_eq!(s[0].q_stride, None);
    assert_eq!(s[0].window, 8);
    assert_eq!(s[23].window, 0, "block 23 is a global-attention block");
    assert_eq!(s[23].q_stride, None);
}

#[test]
fn sizes_select_their_configuration() {
    assert_eq!(Sam2ImageEncoderConfig::for_size(Sam2ModelSize::Tiny).hiera.embed_dim, 96);
    assert_eq!(Sam2ImageEncoderConfig::for_size(Sam2ModelSize::Large).hiera.embed_dim, 144);
    assert_eq!(Sam2ImageEncoderConfig::for_size(Sam2ModelSize::BasePlus).hiera.num_heads, 2);
    assert_eq!(
        Sam2ImageEncoderConfig::for_size(Sam2ModelSize::Small).hiera.stages,
        vec![1, 2, 11, 2]
    );
}

/// `window_unpartition` undoes `window_partition` over the unpadded region (exercises the
/// pad-then-crop path with H/W not divisible by the window).
#[test]
fn hiera_window_partition_round_trips() {
    let (h, w, c) = (12usize, 10usize, 4usize);
    let n = h * w * c;
    let vals: Vec<Binary32> = (0..n).map(|i| f(i as f32)).collect();
    let x = Grid { n: 1, h, w, c, data: vals.clone() };
    let (windows, pad_hw) = window_partition(&x, 8, f(0.0));
    assert_eq!(pad_hw, (16, 16));
    assert_eq!((windows.n, windows.h, windows.w, windows.c), (4, 8, 8, 4));
    let back = window_unpartition(&windows, 8, pad_hw, (h, w));
    assert_eq!((back.n, back.h, back.w, back.c), (1, h, w, c));
    assert_eq!(back.data, vals);
}

#[test]
fn trunks_are_told_from_other_lists() {
    for size in [
        Sam2ModelSize::Tiny,
        Sam2ModelSize::Small,
        Sam2ModelSize::BasePlus,
        Sam2ModelSize::Large,
    ] {
        assert!(is_trunk(&Sam2ImageEncoderConfig::for_size(size).hiera));
    }
    let mut cfg = Sam2ImageEncoderConfig::tiny().hiera;
    cfg.window_spec.pop();
    assert!(!is_trunk(&cfg));
    cfg.stages = vec![];
    assert!(!is_trunk(&cfg));
    cfg.stages = vec![-2];
    assert!(!is_trunk(&cfg));
    cfg.stages = vec![i32::MAX, 1];
    assert!(!is_trunk(&cfg));
    cfg.stages = vec![2];
    assert!(is_trunk(&cfg));
}

#[test]
fn any_factor_scales_the_widths() {
    let mut cfg = Sam2ImageEncoderConfig::tiny().hiera;
    let ends = stage_ends(&cfg);
    cfg.embed_dim = -5;
    cfg.dim_mul = f(-1.5);
    cfg.head_mul = f(f32::NAN);
    let specs = block_specs(&cfg);
    let at = |stage: usize| specs[ends[stage] as usize];
    assert_eq!((at(0).dim_out, at(1).dim_out, at(2).dim_out), (-5, 7, -10));
    assert_eq!((at(0).num_heads, at(1).num_heads), (cfg.num_heads, 0));
}

#[test]
fn padding_is_filled_and_cropped() {
    let g = Grid { n: 1, h: 2, w: 3, c: 1, data: vec![1, 2, 3, 4, 5, 6] };
    let (windows, pad_hw) = window_partition(&g, 2, 0);
    assert_eq!(pad_hw, (2, 4));
    assert_eq!(windows.data, vec![1, 2, 4, 5, 3, 0, 6, 0]);
    let c = crop_hw(&g, 1, 2);
    assert_eq!(c.data, vec![1, 2]);
    assert_eq!(g.get(0, 1, 2, 0), 6);
}

#[test]
fn pooled_blocks_stitch_smaller_windows() {
    let g = attended_geometry(8, Some(2), (20, 20), (10, 10));
    assert_eq!((g.window, g.hw, g.pad_hw), (4, (10, 10), (12, 12)));
    let g = attended_geometry(8, None, (20, 20), (10, 10));
    assert_eq!((g.window, g.hw, g.pad_hw), (8, (20, 20), (24, 24)));
}

#[test]
fn pyramids_run_from_the_top() {
    let cfg = Sam2ImageEncoderConfig::large().fpn;
    let steps = fpn_steps(&cfg);
    assert_eq!(steps.iter().map(|s| s.level).collect::<Vec<_>>(), vec![3, 2, 1, 0]);
    assert_eq!(steps.iter().map(|s| s.conv).collect::<Vec<_>>(), vec![0, 1, 2, 3]);
    assert_eq!(
        steps.iter().map(|s| s.merge).collect::<Vec<_>>(),
        vec![false, true, false, false]
    );
    assert_eq!(kept_levels(&cfg), 3);
}

#[test]
fn argmax_f32_max_ties_empty() {
    assert_eq!(argmax_f32(&fs(&[0.1, 0.9, 0.3])), 1);
    // Ties resolve to the last maximum.
    assert_eq!(argmax_f32(&fs(&[0.5, 0.5, 0.5])), 2);
    // Empty gives 0.
    assert_eq!(argmax_f32(&fs(&[])), 0);
}

#[test]
fn argmax_f32_is_nan_safe() {
    let with_nan = [0.2_f32, f32::NAN, 0.8];
    let idx = argmax_f32(&fs(&with_nan));
    assert!(idx < with_nan.len());
}

#[test]
fn argmax_f32_ties_the_two_zeros() {
    assert_eq!(argmax_f32(&fs(&[0.0, -0.0])), 1);
    assert_eq!(argmax_f32(&fs(&[-0.0, 0.0, -0.0])), 2);
    assert_eq!(argmax_f32(&fs(&[-0.0, -1.0])), 0);
    assert_eq!(best_low_mask(3, &fs(&[0.0, -0.0, -0.5])), 1);
}

#[test]
fn join_dots_nonempty_prefix() {
    assert_eq!(join("", "weight"), "weight");
    assert_eq!(join("blocks.0", "norm.weight"), "blocks.0.norm.weight");
}

#[test]
fn take_range_slices_axis1() {
    // [1, 4, 2], rows 1..3 of axis 1: [1, 2, 2] holding rows 1 and 2.
    let x = Grid { n: 1, h: 4, w: 2, c: 1, data: vec![0, 0, 1, 1, 2, 2, 3, 3] };
    let got = take_range(&x, 1, 3);
    assert_eq!((got.n, got.h, got.w), (1, 2, 2));
    assert_eq!(got.data, vec![1, 1, 2, 2]);
}

/// Row `r` lands at output rows `r*repeat .. (r+1)*repeat`.
#[test]
fn repeat_rows_tiles_consecutively() {
    let t = fs(&[0.0, 1.0, 2.0, 3.0]); // rows [0,1] and [2,3]
    let v = repeat_rows(&t, 2, 2, 3);
    assert_eq!(v.len(), 12);
    // First 3 rows == row 0; next 3 == row 1.
    assert_eq!(v[0..6], fs(&[0.0, 1.0, 0.0, 1.0, 0.0, 1.0]));
    assert_eq!(v[6..12], fs(&[2.0, 3.0, 2.0, 3.0, 2.0, 3.0]));
}

#[test]
fn threshold_is_strictly_positive() {
    // Logits strictly > 0 are kept.
    let logits = [-0.001f32, 0.0, 0.001];
    let bin: Vec<u8> = threshold_mask(&fs(&logits));
    assert_eq!(bin, vec![0, 0, 255]);
    assert_eq!(threshold_mask(&fs(&[f32::NAN, -0.0, f32::INFINITY])), vec![0, 0, 255]);
}

/// Forward tracking pulls the spatial memory bank from the consecutive frames immediately behind
/// the current one.
#[test]
fn maskmem_prev_frame_forward_is_consecutive_recent() {
    let current = 5;
    let frames: Vec<i32> = (1..NUM_MASKMEM)
        .map(|t_pos| maskmem_prev_frame(current, t_pos, false))
        .collect();
    // t_pos = 1,2,3,4,5,6: current-6,-5,-4,-3,-2,-1.
    assert_eq!(frames, vec![-1, 0, 1, 2, 3, 4]);
}

/// Reverse tracking mirrors it: the bank comes from the frames immediately ahead.
#[test]
fn maskmem_prev_frame_reverse_is_consecutive_ahead() {
    let current = 5;
    let frames: Vec<i32> = (1..NUM_MASKMEM)
        .map(|t_pos| maskmem_prev_frame(current, t_pos, true))
        .collect();
    assert_eq!(frames, vec![11, 10, 9, 8, 7, 6]);
}

#[test]
fn rotary_grids_are_square_where_they_can_be() {
    assert_eq!(rope_grid(4096), (64, 64));
    assert_eq!(rope_grid(12), (12, 1));
    let p = plan_rope(16, 36, 4, true);
    assert_eq!((p.end_x, p.end_y, p.repeat, p.rope_len, p.excluded), (4, 4, 2, 32, 4));
    let p = plan_rope(16, 36, 4, false);
    assert_eq!(p.repeat, 1);
}

#[test]
fn stable_masks_are_kept() {
    // Two of four generously counted pixels survive the strict threshold.
    let m = fs(&[1.0, 0.06, 0.0, -0.04, -1.0]);
    assert_eq!(stability_score(&m), f(0.5));
    assert_eq!(stability_score(&fs(&[-1.0])), f(1.0));
    assert_eq!(dynamic_multimask(&m, &fs(&[0.1, 0.9, 0.9])), 2);
    assert_eq!(dynamic_multimask(&fs(&[2.0]), &fs(&[0.1, 0.9])), 0);
    let third = fs(&[1.0, 0.0, 0.0]);
    assert_eq!(stability_score(&third), f(1.0 / 3.0));
}

#[test]
fn candidates_and_tokens() {
    let c = candidates(true);
    assert_eq!((c.start, c.end), (1, 4));
    let c = candidates(false);
    assert_eq!((c.start, c.end), (0, 1));
    assert!(is_object(&f(0.1)));
    assert!(!is_object(&f(0.0)));
    assert_eq!(gate_masks(&f(1.0), &fs(&[3.0])), fs(&[3.0]));
    assert_eq!(gate_masks(&f(-1.0), &fs(&[3.0, 4.0])), vec![Binary32 { bits: NO_OBJECT_LOGIT }; 2]);
    assert_eq!(select_obj_ptr_token(3, &fs(&[0.1, 0.7, 0.2]), true), 1);
    assert_eq!(select_obj_ptr_token(3, &fs(&[0.1, 0.7, 0.2]), false), 0);
    assert_eq!(best_low_mask(1, &fs(&[0.1])), 0);
    assert_eq!(best_low_mask(3, &fs(&[0.1, 0.2, 0.9])), 2);
    assert_eq!(point_token(-1), PointToken::NotAPoint);
    assert_eq!(point_token(2), PointToken::Labelled { embedding: 2 });
    assert_eq!(point_token(9), PointToken::Position);
}

fn out(id: u64, memory: Option<u64>) -> FrameOut {
    FrameOut {
        pred_masks: id,
        obj_ptr: id + 1,
        object_score_logits: id + 2,
        maskmem_features: memory,
        maskmem_pos_enc: memory.map(|m| m + 1),
    }
}

#[test]
fn a_clip_is_prompted_encoded_and_propagated() {
    let mut clip = VideoState::new(4, 480, 640);
    assert_eq!(clip.propagation_start(), Err(VideoError::NoPrompt));
    assert!(VideoError::NoPrompt.message().contains("a prompt is required before propagation"));

    // A first prompt on frame 1 predicts from the prompt alone.
    let run = clip.begin_prompt(1, 7, 8);
    assert!(matches!(run.inference, Inference::Prompted));
    assert_eq!(run.prev_low, None);
    assert_eq!(clip.finish_prompt(1, 100, 101, 102, 55), 100);

    // Its memory is pending, with the features still at hand.
    assert_eq!(clip.preflight(), vec![1]);
    let req = clip.memory_request(1);
    assert_eq!(req.features, Some(55));
    assert_eq!(req.pred_masks, 100);
    assert!(req.is_mask_from_points);
    clip.store_memory(1, 200, 201);
    assert_eq!(clip.preflight(), Vec::<i32>::new());

    // Propagation runs from the first prompted frame to the end.
    assert_eq!(clip.propagation_frames(), Ok(vec![1, 2, 3]));
    assert!(matches!(clip.propagation_step(1), Step::Known { pred_masks: 100 }));
    clip.pass_prompted(1);
    match clip.propagation_step(2) {
        Step::Track { inference: Inference::Remembered { conditioning } } => match conditioning {
            Conditioning::Memory { spatial, distances, pointers, .. } => {
                assert_eq!(spatial, vec![(6, 200, 201)]);
                assert_eq!(pointers, vec![101]);
                assert_eq!(distances, vec![1]);
            }
            Conditioning::NoMemory => panic!("the prompted frame has a memory"),
        },
        _ => panic!("frame 2 is not prompted"),
    }
    clip.finish_tracked(2, out(300, Some(400)));
    assert_eq!((clip.num_frames, clip.video_h, clip.video_w), (4, 480, 640));
    match clip.propagation_step(3) {
        Step::Track { inference: Inference::Remembered { conditioning } } => match conditioning {
            Conditioning::Memory { spatial, pointers, .. } => {
                // The prompted frame first, then the frame just before, in the slot next to it.
                assert_eq!(spatial, vec![(6, 200, 201), (0, 400, 401)]);
                assert_eq!(pointers, vec![101, 301]);
            }
            Conditioning::NoMemory => panic!("two frames have a memory"),
        },
        _ => panic!("frame 3 is not prompted"),
    }
}

#[test]
fn a_second_prompt_refines_the_first() {
    let mut clip = VideoState::new(2, 10, 10);
    clip.begin_prompt(0, 1, 2);
    clip.finish_prompt(0, 10, 11, 12, 13);
    let run = clip.begin_prompt(0, 3, 4);
    assert_eq!(run.prev_low, Some(10));
    assert!(matches!(run.inference, Inference::Remembered { .. }));
}

#[test]
fn corrections_need_a_label_per_point() {
    assert_eq!(check_correction_points(2, 2), Ok(()));
    let err = check_correction_points(2, 3).unwrap_err();
    assert_eq!(err, VideoError::PointLabelMismatch { points: 2, labels: 3 });
    assert_eq!(
        err.message(),
        "sam2 add_correction_points: points/labels length mismatch (2 vs 3)"
    );
}

#[test]
fn the_decoder_hands_on_what_was_asked_for() {
    let unstable = fs(&[1.0, 0.0, 0.0]);
    let ious = fs(&[0.9, 0.1, 0.3, 0.2]);
    let p = predict(&f(1.0), &unstable, &ious, true);
    assert_eq!((p.present, p.kept, p.tokens.start, p.tokens.end), (true, vec![1, 2, 3], 1, 4));
    let p = predict(&f(1.0), &unstable, &ious, false);
    assert_eq!((p.present, p.kept, p.tokens.start, p.tokens.end), (true, vec![2], 0, 1));
    // An absent object is judged by its uniform mask, which is stable.
    for best in 0..3 {
        let p = predict_given_best(&f(1.0), &unstable, best, false);
        assert_eq!(p.kept, vec![best + 1]);
        assert_eq!(predict_given_best(&f(-1.0), &unstable, best, false).kept, vec![0]);
        assert_eq!(predict_given_best(&f(1.0), &unstable, best, true).kept, vec![1, 2, 3]);
    }
    let p = predict(&f(-1.0), &unstable, &ious, false);
    assert_eq!((p.present, p.kept), (false, vec![0]));
    let rows = token_rows(3);
    assert_eq!((rows.object_score, rows.overlaps, rows.total), (0, 1, 9));
    assert_eq!((rows.masks.start, rows.masks.end), (2, 6));
}

#[test]
fn decoder_settings_follow_the_inference() {
    let s = Inference::Prompted.settings(Some(4));
    assert!(s.multimask_output && s.add_no_mem_embed);
    assert_eq!(s.mask_input, None);
    let s = Inference::Remembered { conditioning: Conditioning::NoMemory }.settings(Some(4));
    assert!(!s.multimask_output && !s.add_no_mem_embed);
    assert_eq!(s.mask_input, Some(4));
    assert_eq!(point_input(Some(1), Some(2)), PointInput::Given { coords: 1, labels: 2 });
    assert_eq!(point_input(Some(1), None), PointInput::Padding);
    let clipped = clip_previous(&fs(&[-40.0, -32.0, 0.5, 33.0, f32::INFINITY]));
    assert_eq!(clipped, fs(&[-32.0, -32.0, 0.5, 32.0, 32.0]));
    assert!(clip_previous(&fs(&[f32::NAN]))[0].is_nan());
}
