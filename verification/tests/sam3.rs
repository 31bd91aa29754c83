use std::collections::BTreeMap;

use mlx_gen_vision::binary32::Binary32;
use mlx_gen_vision::layout::{window_partition, window_unpartition, Grid};
use mlx_gen_vision::sam3::association::{associate, Assoc, Detection};
use mlx_gen_vision::sam3::config::{
    Sam3DetrConfig, Sam3GeometryConfig, Sam3TextConfig, Sam3VisionConfig,
};
use mlx_gen_vision::sam3::detr::{
    combined_mask, plan_detection, pool_weights, prompt_key_mask, text_key_mask,
};
use mlx_gen_vision::sam3::geometry::{corner_places, corners};
use mlx_gen_vision::sam3::hotstart::Hotstart;
use mlx_gen_vision::sam3::masks::{
    any_covered, binarize, count_foreground, mask_iou, suppress_pw_area_shrinkage, unique,
};
use mlx_gen_vision::sam3::memory::{select_closest_cond_frames, FrameMem, ObjectBank};
use mlx_gen_vision::sam3::occlusion::suppress_overlapping_recent_occlusion;
use mlx_gen_vision::sam3::quantization::{quantize, Model, Part};
use mlx_gen_vision::sam3::tracker::{
    argmax, compute_object_pointer, decode_mask_conditioning_frame, decode_tracked_frame,
    dynamic_multimask_via_stability, encode_new_memory, layout_memory, prepare_mask_for_mem,
    prepare_memory_conditioned_features, rope_key_repeats, rotate_pairwise, segment_encoded,
    segment_encoded_multimask, vision_grid, PointerSource, TrackerError,
};
use mlx_gen_vision::sam3::video::{mask_prompt, position_of, select_detections, Sam3VideoModel};
use mlx_gen_vision::sam3::vision::{fpn_branch, layer_plans, tiled_pos, FpnBranch, VisionError};

fn f(v: f32) -> Binary32 {
    Binary32 { bits: v.to_bits() }
}

fn fs(v: &[f32]) -> Vec<Binary32> {
    v.iter().map(|x| f(*x)).collect()
}

fn det(mask: &[f32], score: f32, prompt_id: i32) -> Detection {
    Detection { mask: fs(mask), score: f(score), prompt_id }
}

#[test]
fn vision_window_partition_round_trips() {
    let (h, w, c) = (12usize, 10usize, 4usize);
    let vals: Vec<Binary32> = (0..h * w * c).map(|i| f(i as f32)).collect();
    let x = Grid { n: 1, h, w, c, data: vals.clone() };
    let (windows, pad_hw) = window_partition(&x, 8, f(0.0));
    assert_eq!(pad_hw, (16, 16));
    let back = window_unpartition(&windows, 8, pad_hw, (h, w));
    assert_eq!((back.n, back.h, back.w, back.c), (1, h, w, c));
    assert_eq!(back.data, vals);
}

/// Lanes `(a, b)` become `(-b, a)`; applied twice this negates.
#[test]
fn rotate_pairwise_squares_to_negation() {
    let x = fs(&[1.0, 2.0, 3.0, 4.0]);
    assert_eq!(rotate_pairwise(&x), fs(&[-2.0, 1.0, -4.0, 3.0]));
    let twice = rotate_pairwise(&rotate_pairwise(&x));
    assert_eq!(twice, fs(&[-1.0, -2.0, -3.0, -4.0]));
}

#[test]
fn published_configurations() {
    let v = Sam3VisionConfig::sam3();
    assert_eq!((v.head_dim(), v.grid(), v.pretrain_grid()), (64, 72, 24));
    let plans = layer_plans(&v);
    assert_eq!(plans.len(), 32);
    assert_eq!(plans.iter().filter(|p| p.window == 0).count(), v.global_attn_indexes.len());
    assert_eq!(Sam3DetrConfig::sam3().head_dim(), 32);
    assert_eq!(Sam3GeometryConfig::sam3().head_dim(), 32);
    assert_eq!(Sam3TextConfig::sam3().head_dim(), 64);
}

#[test]
fn positions_are_tiled() {
    let p = Grid { n: 1, h: 2, w: 2, c: 1, data: vec![1, 2, 3, 4] };
    let t = tiled_pos(&p, 4).unwrap_or_else(|_| panic!("a multiple"));
    assert_eq!(t.data, vec![1, 2, 1, 2, 3, 4, 3, 4, 1, 2, 1, 2, 3, 4, 3, 4]);
    let err = match tiled_pos(&p, 3) {
        Err(e) => e,
        Ok(_) => panic!("no multiple"),
    };
    assert_eq!(err, VisionError::GridNotMultiple { grid: 3, pretrain_grid: 2 });
    assert!(err.message().starts_with("sam3 vision: token grid 3 is not a multiple of"));
}

#[test]
fn scales_choose_their_branch() {
    assert_eq!(fpn_branch(&f(4.0)), FpnBranch::UpTwice);
    assert_eq!(fpn_branch(&f(2.0)), FpnBranch::UpOnce);
    assert_eq!(fpn_branch(&f(1.0)), FpnBranch::Same);
    assert_eq!(fpn_branch(&f(0.5)), FpnBranch::Down);
}

#[test]
fn prompts_are_masked_and_pooled() {
    assert_eq!(text_key_mask(&[1, 0]), fs(&[0.0, -1e9]));
    let p = pool_weights(&[1, 0, 1]);
    assert_eq!(p.weights, fs(&[1.0, 0.0, 1.0]));
    assert_eq!(p.divisor, 2);
    assert_eq!(pool_weights(&[0]).divisor, 1);
    assert_eq!(combined_mask(&[1, 0], 2), vec![1, 0, 1, 1]);
}

#[test]
fn samples_stay_on_the_map() {
    let inner = corners(2, 4);
    assert_eq!((inner.low, inner.high, inner.at_edge), (2, 3, false));
    let edge = corners(3, 4);
    assert_eq!((edge.low, edge.high, edge.at_edge), (3, 3, true));
    assert_eq!(corner_places(inner, edge, 4, 4), [11, 11, 15, 15]);
}

#[test]
fn masks_overlap_by_count() {
    let a = [true, true, false, false];
    let b = [true, false, true, false];
    assert_eq!(mask_iou(&a, &b), f(1.0 / 3.0));
    assert_eq!(mask_iou(&b, &a), f(1.0 / 3.0));
    assert_eq!(mask_iou(&a, &a), f(1.0));
    assert_eq!(mask_iou(&[false; 4], &[false; 4]), f(0.0));
    assert_eq!(binarize(&fs(&[0.0, 0.1, -1.0, f32::NAN])), vec![false, true, false, false]);
    assert!(!any_covered(&[false, false]));
    assert_eq!(count_foreground(&fs(&[1.0, 0.0, 2.0])), 2);
    assert_eq!(unique(&[3, 1, 3, -2]), vec![-2, 1, 3]);
}

#[test]
fn overlapping_masks_of_one_prompt_share_no_pixel() {
    // The first object wins two pixels of three; the second keeps one of three: enough.
    let masks = vec![fs(&[5.0, 5.0, 1.0, -1.0]), fs(&[1.0, 1.0, 4.0, -3.0])];
    let r = suppress_pw_area_shrinkage(&masks, &[0, 0]);
    assert_eq!(r[0], fs(&[5.0, 5.0, -10.0, -1.0]));
    assert_eq!(r[1], fs(&[-10.0, -10.0, 4.0, -10.0]));
    // Different prompts do not compete.
    let r = suppress_pw_area_shrinkage(&masks, &[0, 1]);
    assert_eq!(r, masks);
    // An object that keeps less than three tenths of its area vanishes.
    let masks = vec![fs(&[5.0, 5.0, 5.0, 1.0]), fs(&[1.0, 1.0, 1.0, 4.0])];
    let r = suppress_pw_area_shrinkage(&masks, &[0, 0]);
    assert_eq!(r[0], fs(&[5.0, 5.0, 5.0, -10.0]));
    assert_eq!(r[1], fs(&[-10.0, -10.0, -10.0, -10.0]));
}

#[test]
fn detections_are_matched_by_overlap() {
    let on = [1.0f32; 4];
    let left = [1.0f32, 1.0, -1.0, -1.0];
    let right = [-1.0f32, -1.0, 1.0, 1.0];
    // No object yet: confident detections start objects.
    let a = associate(&[det(&on, 0.9, 0), det(&on, 0.6, 0)], &[], &[], &[]);
    assert_eq!(a.new_det_inds.len(), 2);
    // One object on the left: the left detection confirms it, the right one is new.
    let tracks = vec![fs(&left)];
    let a = associate(&[det(&left, 0.9, 0), det(&right, 0.9, 0)], &[7], &[0], &tracks);
    assert_eq!(a.new_det_inds, vec![1]);
    assert_eq!(a.det_to_matched_trk, vec![vec![7], vec![]]);
    assert_eq!(a.unmatched_trk, Vec::<i32>::new());
    assert_eq!(a.trk_id_to_max_iou_high_conf_det.get(&7), Some(&0));
    // A weak detection starts nothing; an empty track is neither matched nor unmatched.
    let tracks = vec![fs(&left), fs(&[-1.0; 4])];
    let a = associate(&[det(&right, 0.6, 0)], &[7, 8], &[0, 0], &tracks);
    assert_eq!(a.new_det_inds, Vec::<usize>::new());
    assert_eq!(a.unmatched_trk, vec![7]);
    assert_eq!(a.empty_trk, vec![8]);
    // Another prompt does not match.
    let a = associate(&[det(&left, 0.9, 1)], &[7], &[0], &vec![fs(&left)]);
    assert_eq!(a.new_det_inds, vec![0]);
    assert_eq!(a.unmatched_trk, vec![7]);
}

fn assoc(unmatched: Vec<i32>, matched: Vec<Vec<i32>>) -> Assoc {
    Assoc {
        new_det_inds: vec![],
        unmatched_trk: unmatched,
        empty_trk: vec![],
        det_to_matched_trk: matched,
        trk_id_to_max_iou_high_conf_det: BTreeMap::new(),
    }
}

#[test]
fn young_objects_that_go_unmatched_are_removed() {
    let mut h = Hotstart::new();
    assert_eq!(h.process_hotstart(0, &assoc(vec![], vec![]), &[5]), Vec::<i32>::new());
    for frame in 1..8 {
        assert_eq!(h.process_hotstart(frame, &assoc(vec![5], vec![]), &[]), Vec::<i32>::new());
    }
    // The eighth unmatched frame.
    assert_eq!(h.process_hotstart(8, &assoc(vec![5], vec![]), &[]), vec![5]);
    assert!(h.removed.contains(&5));
    // Once removed, it is not flagged again.
    assert_eq!(h.process_hotstart(9, &assoc(vec![5], vec![]), &[]), Vec::<i32>::new());
}

#[test]
fn older_objects_may_go_unmatched() {
    let mut h = Hotstart::new();
    h.process_hotstart(0, &assoc(vec![], vec![]), &[5]);
    for frame in 15..40 {
        assert_eq!(h.process_hotstart(frame, &assoc(vec![5], vec![]), &[]), Vec::<i32>::new());
    }
}

#[test]
fn duplicates_of_an_older_object_are_removed() {
    let mut h = Hotstart::new();
    h.process_hotstart(0, &assoc(vec![], vec![]), &[1]);
    h.process_hotstart(1, &assoc(vec![], vec![]), &[2]);
    for frame in 2..9 {
        let r = h.process_hotstart(frame, &assoc(vec![], vec![vec![1, 2]]), &[]);
        assert_eq!(r, Vec::<i32>::new());
    }
    let r = h.process_hotstart(9, &assoc(vec![], vec![vec![1, 2]]), &[]);
    assert_eq!(r, vec![2]);
    assert_eq!(h.keep_alive.get(&1), Some(&30));
}

fn mem(id: u64) -> FrameMem {
    FrameMem {
        maskmem_features: Some(id),
        maskmem_pos_enc: Some(id + 1),
        object_pointer: id + 2,
        object_score: f(10.0),
    }
}

#[test]
fn conditioning_frames_are_chosen_by_distance() {
    let mut cond = BTreeMap::new();
    for t in [0, 10, 20, 30, 40, 50] {
        cond.insert(t, mem(t as u64));
    }
    // The frame before and the one at or after, then the closest of the rest.
    let (sel, rest) = select_closest_cond_frames(25, &cond, 4);
    assert_eq!(sel, vec![10, 20, 30, 40]);
    assert_eq!(rest, vec![0, 50]);
    let (sel, rest) = select_closest_cond_frames(60, &cond, 2);
    assert_eq!(sel, vec![40, 50]);
    assert_eq!(rest.len(), 4);
    let (sel, rest) = select_closest_cond_frames(25, &cond, -1);
    assert_eq!(sel.len(), 6);
    assert!(rest.is_empty());
}

#[test]
fn a_small_limit_keeps_the_nearest_alone() {
    let mut cond = BTreeMap::new();
    for t in [0, 10] {
        cond.insert(t, mem(t as u64));
    }
    assert_eq!(select_closest_cond_frames(5, &cond, 1), (vec![0], vec![10]));
    assert_eq!(select_closest_cond_frames(6, &cond, 1), (vec![10], vec![0]));
    assert_eq!(select_closest_cond_frames(5, &cond, 0), (vec![], vec![0, 10]));
    assert_eq!(select_closest_cond_frames(5, &cond, 2), (vec![0, 10], vec![]));
}

#[test]
fn sizes_divide_towards_zero() {
    let c = Sam3DetrConfig { hidden_size: -7, num_attention_heads: 2, ..Sam3DetrConfig::sam3() };
    assert_eq!(c.head_dim(), -3);
    let c = Sam3DetrConfig { hidden_size: -7, num_attention_heads: -2, ..Sam3DetrConfig::sam3() };
    assert_eq!(c.head_dim(), 3);
    let c = Sam3DetrConfig { hidden_size: i32::MIN, num_attention_heads: 1, ..c };
    assert_eq!(c.head_dim(), i32::MIN);
}

#[test]
fn configurations_default_to_the_published_ones() {
    assert_eq!(Sam3DetrConfig::default(), Sam3DetrConfig::sam3());
    assert_eq!(Sam3GeometryConfig::default(), Sam3GeometryConfig::sam3());
    assert_eq!(Sam3TextConfig::default(), Sam3TextConfig::sam3());
    let (d, p) = (Sam3VisionConfig::default(), Sam3VisionConfig::sam3());
    assert_eq!((d.grid(), d.global_attn_indexes), (p.grid(), p.global_attn_indexes));
    assert_eq!(d.scale_factors, p.scale_factors);
}

#[test]
fn a_frame_reads_its_memory() {
    let mut bank = ObjectBank::new();
    bank.cond.insert(0, mem(100));
    bank.non_cond.insert(1, mem(200));
    bank.non_cond.insert(2, mem(300));
    let plan = bank.gather_memory(3, 10);
    // The conditioning frame with offset zero, then the tracked ones from far to near.
    assert_eq!(plan.spatial, vec![(0, 100, 101), (2, 200, 201), (1, 300, 301)]);
    assert_eq!(plan.pointers[0], (3, 102));
    assert_eq!(plan.pointers.len(), 3);
    assert_eq!(plan.max_object_pointers, 10);
}

#[test]
fn the_more_recently_occluded_object_yields() {
    let on = fs(&[1.0, 1.0, 1.0, 1.0]);
    let mut last = BTreeMap::new();
    last.insert(1, 3);
    last.insert(2, 5);
    let mut masks = vec![on.clone(), on.clone()];
    suppress_overlapping_recent_occlusion(&mut last, 9, &[1, 2], &[0, 0], &mut masks, &[]);
    assert_eq!(masks[0], on);
    assert_eq!(masks[1], fs(&[-10.0; 4]));
    assert_eq!(last.get(&1), Some(&3));
    assert_eq!(last.get(&2), Some(&9));
    // Objects that were never occluded do not compete.
    let mut last = BTreeMap::new();
    let mut masks = vec![on.clone(), on.clone()];
    suppress_overlapping_recent_occlusion(&mut last, 9, &[1, 2], &[0, 0], &mut masks, &[]);
    assert_eq!(masks, vec![on.clone(), on.clone()]);
}

#[test]
fn the_tracker_chooses_masks_and_pointers() {
    assert_eq!(argmax(&fs(&[0.1, 0.9, 0.9])), 1);
    assert_eq!(argmax(&[]), 0);
    assert_eq!(dynamic_multimask_via_stability(&fs(&[2.0, -2.0]), &fs(&[0.1, 0.2, 0.9])), 0);
    assert_eq!(dynamic_multimask_via_stability(&fs(&[0.0, 2.0]), &fs(&[0.1, 0.2, 0.9])), 2);
    assert_eq!(compute_object_pointer(2, &f(0.5)), PointerSource::Token { index: 2 });
    assert_eq!(compute_object_pointer(2, &f(-0.5)), PointerSource::NoObject);
    let t = decode_tracked_frame(&fs(&[0.1, 0.7, 0.3]), &f(1.0));
    assert_eq!(t.mask, Some(1));
    assert_eq!(t.pointer, PointerSource::Token { index: 2 });
    assert_eq!(decode_tracked_frame(&fs(&[0.1]), &f(-1.0)).mask, None);
    let s = decode_mask_conditioning_frame(&fs(&[1.0]), &fs(&[0.5]), &f(-1.0));
    assert_eq!(s.pointer, PointerSource::NoObject);
    assert_eq!(s.object_score, f(10.0));
    let s = decode_mask_conditioning_frame(&fs(&[0.0]), &fs(&[0.5]), &f(1.0));
    assert_eq!(s.object_score, f(-10.0));
}

#[test]
fn the_tracker_checks_its_lengths() {
    assert_eq!(vision_grid(5184), Ok(72));
    let err = vision_grid(50).unwrap_err();
    assert_eq!(err, TrackerError::NotSquare { seq: 50, g: 7 });
    assert_eq!(
        err.message(),
        "sam3 tracker: vision feature length 50 is not a perfect square (g=7)"
    );
    assert_eq!(rope_key_repeats(36, 4, 16, true), Ok(2));
    let err = rope_key_repeats(36, 3, 16, true).unwrap_err();
    assert_eq!(
        err.message(),
        "sam3 tracker: rope key length 33 is not a multiple of query length 16"
    );
}

#[test]
fn memory_is_laid_out_and_prepared() {
    let l = layout_memory(&[(0, 1, 2), (1, 3, 4), (6, 5, 6)], &[(1, 9), (2, 8)], 16);
    assert_eq!(l.temporal_rows, vec![6, 0, 5]);
    assert_eq!(l.max_temporal_diff, 15);
    assert_eq!(l.num_object_pointer_tokens, 8);
    let m = encode_new_memory(288, 288, &f(1.0), false);
    assert!(m.mask.resize && !m.mask.binarize && !m.add_occlusion);
    let m = encode_new_memory(1152, 1152, &f(-1.0), true);
    assert!(!m.mask.resize && m.mask.binarize && m.add_occlusion);
    assert_eq!(prepare_mask_for_mem(1152, 1152, true), m.mask);
    assert!(prepare_mask_for_mem(1152, 288, false).resize);
}

#[test]
fn conditioning_wants_a_square_map() {
    let spatial = [(0, 1, 2), (3, 4, 5)];
    let c = prepare_memory_conditioned_features(5184, &spatial, &[(2, 7)], 1)
        .unwrap_or_else(|_| panic!("72 squared"));
    assert_eq!(c.grid, 72);
    assert_eq!(c.layout.temporal_rows, vec![6, 2]);
    assert_eq!((c.layout.max_temporal_diff, c.layout.num_object_pointer_tokens), (1, 4));
    match prepare_memory_conditioned_features(10, &spatial, &[], 16) {
        Err(e) => assert_eq!(e, TrackerError::NotSquare { seq: 10, g: 3 }),
        Ok(_) => panic!("ten is not a square"),
    }
}

#[test]
fn a_session_tracks_adds_and_shows_objects() {
    let mut s = Sam3VideoModel::new();
    s.begin_video(2);
    let left = [1.0f32, 1.0, -1.0, -1.0];
    let right = [-1.0f32, -1.0, 1.0, 1.0];

    // Frame 0: two confident detections become objects 0 and 1.
    let dets = vec![det(&left, 0.9, 0), det(&right, 0.95, 0)];
    let plan = s.track_frame(0, &dets, vec![], &[], &[]);
    assert_eq!(plan.new_obj_ids, vec![0, 1]);
    assert_eq!(plan.removed_now, Vec::<i32>::new());
    let out = s.finish_frame(0, &dets, &plan, &[], &[mem(10), mem(20)]);
    assert_eq!(out.obj_ids, vec![0, 1]);
    assert_eq!(out.masks, vec![fs(&left), fs(&right)]);
    assert_eq!(s.obj_ids, vec![0, 1]);

    // Frame 1: both are tracked from their memory; nothing new.
    let read = s.gather_memory(0, 1);
    assert_eq!(read.spatial, vec![(0, 10, 11)]);
    let plan = s.track_frame(
        1,
        &dets,
        vec![fs(&left), fs(&right)],
        &[31, 32],
        &[f(5.0), f(5.0)],
    );
    assert_eq!(plan.new_obj_ids, Vec::<i32>::new());
    assert_eq!(plan.reconditioned, Vec::<i32>::new());
    assert_eq!(plan.memory_scores, fs(&[10.0, 10.0]));
    let out = s.finish_frame(1, &dets, &plan, &[(41, 42), (43, 44)], &[]);
    assert_eq!(out.obj_ids, vec![0, 1]);
    assert_eq!(out.masks, vec![fs(&left), fs(&right)]);
    let read = s.gather_memory(1, 2);
    assert_eq!(read.spatial, vec![(0, 20, 21), (1, 43, 44)]);
    assert_eq!(read.pointers, vec![(2, 22), (1, 32)]);
}

#[test]
fn confirmed_tracks_are_reconditioned_on_schedule() {
    let mut s = Sam3VideoModel::new();
    s.begin_video(20);
    let left = [1.0f32, 1.0, -1.0, -1.0];
    let sharper = [9.0f32, 9.0, -9.0, -9.0];
    let first = vec![det(&left, 0.9, 0)];
    let plan = s.track_frame(0, &first, vec![], &[], &[]);
    s.finish_frame(0, &first, &plan, &[], &[mem(10)]);
    let second = vec![det(&sharper, 0.9, 0)];
    let plan = s.track_frame(16, &second, vec![fs(&left)], &[30], &[f(5.0)]);
    assert_eq!(plan.reconditioned, vec![0]);
    let out = s.finish_frame(16, &second, &plan, &[(41, 42)], &[]);
    // The confirming detection is shown, and the frame conditions later ones.
    assert_eq!(out.masks, vec![fs(&sharper)]);
    assert!(s.banks[0].cond.contains_key(&16));
    assert!(!s.banks[0].non_cond.contains_key(&16));
    let read = s.gather_memory(0, 17);
    assert_eq!(read.spatial, vec![(0, 10, 11), (0, 41, 42)]);
    assert_eq!(read.pointers, vec![(17, 12), (1, 30)]);
}

#[test]
fn removed_objects_leave_the_session_with_their_own_mask_shown() {
    let mut s = Sam3VideoModel::new();
    s.begin_video(20);
    let left = [1.0f32, 1.0, -1.0, -1.0];
    let right = [-1.0f32, -1.0, 1.0, 1.0];
    let both = vec![det(&left, 0.9, 0), det(&right, 0.9, 0)];
    let plan = s.track_frame(0, &both, vec![], &[], &[]);
    s.finish_frame(0, &both, &plan, &[], &[mem(10), mem(20)]);
    // Object 0 is never detected again.
    let only_right = vec![det(&right, 0.9, 0)];
    for frame in 1..8 {
        let plan = s.track_frame(
            frame,
            &only_right,
            vec![fs(&left), fs(&right)],
            &[1, 2],
            &[f(5.0), f(5.0)],
        );
        assert_eq!(plan.removed_now, Vec::<i32>::new());
        s.finish_frame(frame, &only_right, &plan, &[(1, 2), (3, 4)], &[]);
    }
    let plan = s.track_frame(
        8,
        &only_right,
        vec![fs(&left), fs(&right)],
        &[1, 2],
        &[f(5.0), f(5.0)],
    );
    assert_eq!(plan.removed_now, vec![0]);
    let out = s.finish_frame(8, &only_right, &plan, &[(1, 2), (3, 4)], &[]);
    assert_eq!(out.obj_ids, vec![0, 1]);
    assert_eq!(out.masks[1], fs(&right));
    assert_eq!(s.obj_ids, vec![1]);
    // The object that comes next gets an id of its own.
    let plan = s.track_frame(9, &both, vec![fs(&right)], &[2], &[f(5.0)]);
    assert_eq!(plan.new_obj_ids, vec![2]);
    s.finish_frame(9, &both, &plan, &[(3, 4)], &[mem(50)]);
    assert_eq!(s.obj_ids, vec![1, 2]);
}

#[test]
fn detections_are_those_above_the_threshold() {
    let d = select_detections(&fs(&[0.5, 0.6]), &fs(&[1.0, 2.0, 3.0, 4.0]), 2);
    assert_eq!(d.len(), 1);
    assert_eq!(d[0].mask, fs(&[3.0, 4.0]));
    assert_eq!(d[0].score, f(0.6));
    assert_eq!(mask_prompt(&fs(&[0.5, 0.49, 7.0, f32::NAN])), fs(&[1.0, 0.0, 1.0, 0.0]));
    assert_eq!(position_of(&[4, 5, 5], 5), Some(1));
    assert_eq!(position_of(&[4], 5), None);
}

#[test]
fn prompted_frames_keep_one_candidate() {
    let stable = fs(&[2.0, -2.0]);
    let unstable = fs(&[2.0, 0.0]);
    let ious = fs(&[0.9, 0.1, 0.3, 0.2]);
    let c = segment_encoded_multimask(&stable, &ious, true);
    assert_eq!(segment_encoded(&stable, &ious), c);
    assert_eq!((c.candidate, c.iou), (2, f(0.3)));
    let c = segment_encoded_multimask(&stable, &ious, false);
    assert_eq!((c.candidate, c.iou), (0, f(0.9)));
    let c = segment_encoded_multimask(&unstable, &ious, false);
    assert_eq!((c.candidate, c.iou), (2, f(0.3)));
}

#[test]
fn a_detector_run_is_planned() {
    let cfg = Sam3DetrConfig::sam3();
    let p = plan_detection(&cfg, 72, 72, &[1, 1, 0]);
    assert_eq!(p.vision_tokens, 5184);
    assert_eq!(p.key_mask, fs(&[0.0, 0.0, -1e9]));
    assert_eq!(p.key_mask, prompt_key_mask(&[1, 1, 0]));
    assert_eq!((p.encoder_layers, p.decoder_layers, p.output_layer), (6, 6, 5));
    assert_eq!(p.presence_row, 0);
    assert_eq!(p.query_rows.len() as i32, cfg.num_queries);
    assert_eq!((p.query_rows[0], *p.query_rows.last().unwrap()), (1, cfg.num_queries));
}

#[test]
fn the_shared_backbone_is_quantized_once() {
    let parts = quantize(Model::Video);
    assert_eq!(parts.len(), 9);
    assert_eq!(parts.iter().filter(|p| **p == Part::Backbone).count(), 1);
    assert_eq!(parts[0], Part::Backbone);
    assert_eq!(quantize(Model::Segmenter).len(), 5);
    assert_eq!(quantize(Model::Tracker)[1], Part::MaskDecoder);
}
