use mlx_gen_vision::binary32::Binary32;
use mlx_gen_vision::qwen::generation::{
    check_prompt, negative_or_fallback, num_steps, resolve_run_params, GenerateError,
};
use mlx_gen_vision::qwen::load::{
    AdapterSpec, LoadError, LoadSpec, LoadStep, Precision, Variant, WeightsSource,
};
use mlx_gen_vision::qwen::model;
use mlx_gen_vision::qwen::model_control;
use mlx_gen_vision::qwen::model_edit;
use mlx_gen_vision::qwen::model_edit::reference_images;
use mlx_gen_vision::qwen::request::{
    is_lightning, validate_request, Conditioning, ConditioningKind, ControlKind,
    GenerationRequest, Image, Modality, Quant, LIGHTNING_SAMPLER,
};
use mlx_gen_vision::qwen::run::{Run, RunPlan, Work};

fn f(v: f32) -> Binary32 {
    Binary32 { bits: v.to_bits() }
}

fn img(w: u32) -> Image {
    Image {
        width: w,
        height: 8,
        pixels: vec![0u8; (w * 8 * 3) as usize],
    }
}

fn text_model() -> model::QwenImage {
    model::QwenImage { descriptor: model::descriptor() }
}

fn control_model() -> model_control::QwenImageControl {
    model_control::QwenImageControl { descriptor: model_control::descriptor() }
}

fn edit_model() -> model_edit::QwenImageEdit {
    model_edit::QwenImageEdit { descriptor: model_edit::descriptor() }
}

#[test]
fn descriptor_is_qwen_image() {
    let d = model::descriptor();
    assert_eq!(d.id, "qwen_image");
    assert_eq!(d.family, "qwen-image");
    assert_eq!(d.modality, Modality::Image);
    assert!(d.capabilities.supports_guidance);
    assert!(d.capabilities.supports_negative_prompt);
    assert!(d.capabilities.supports_true_cfg);
    assert!(d.capabilities.requires_sigma_shift);
    // The few-step sampler is advertised.
    assert!(d.capabilities.samplers.contains(&LIGHTNING_SAMPLER));
    assert_eq!(d.capabilities.supported_quants, vec![Quant::Q4, Quant::Q8]);
    assert_eq!(
        (d.capabilities.min_size, d.capabilities.max_size, d.capabilities.max_count),
        (256, 2048, 8)
    );
}

#[test]
fn validate_sampler_selection() {
    let caps = model::descriptor().capabilities;
    // Unset sampler: the production flow-match path.
    let req = GenerationRequest {
        prompt: "a fox".into(),
        ..Default::default()
    };
    assert!(validate_request(&caps, &req).is_ok());
    // The advertised `lightning` sampler is accepted.
    let req = GenerationRequest {
        prompt: "a fox".into(),
        sampler: Some(LIGHTNING_SAMPLER.into()),
        ..Default::default()
    };
    assert!(validate_request(&caps, &req).is_ok());
    assert!(is_lightning(&req));
    // An unknown sampler is rejected, not silently downgraded.
    let req = GenerationRequest {
        prompt: "a fox".into(),
        sampler: Some("lcm".into()),
        ..Default::default()
    };
    let err = validate_request(&caps, &req)
        .expect_err("expected an error")
        .message();
    assert!(err.contains("unsupported sampler"), "got: {err}");
    assert_eq!(
        err,
        "qwen_image: unsupported sampler \"lcm\" (supported: [\"lightning\"], or unset for the \
         production flow-match path)"
    );
}

#[test]
fn odd_sampler_names_are_escaped_in_the_message() {
    let caps = model::descriptor().capabilities;
    let req = GenerationRequest {
        sampler: Some("a\"b\n".into()),
        ..Default::default()
    };
    let err = validate_request(&caps, &req).unwrap_err().message();
    assert!(err.contains("unsupported sampler \"a\\\"b\\n\" ("), "got: {err}");
}

#[test]
fn validate_rejects_production_steps_below_two() {
    let caps = model::descriptor().capabilities;
    let prod = |steps| GenerationRequest {
        prompt: "a fox".into(),
        steps,
        ..Default::default()
    };
    for s in [Some(0), Some(1)] {
        let err = validate_request(&caps, &prod(s))
            .expect_err("expected an error")
            .message();
        assert!(err.contains("steps must be >= 2"), "steps {s:?} got: {err}");
    }
    assert!(validate_request(&caps, &prod(Some(2))).is_ok());
    assert!(validate_request(&caps, &prod(None)).is_ok());
    // The few-step schedule at one step is fine.
    let lightning = GenerationRequest {
        prompt: "a fox".into(),
        steps: Some(1),
        sampler: Some(LIGHTNING_SAMPLER.into()),
        ..Default::default()
    };
    assert!(validate_request(&caps, &lightning).is_ok());
}

#[test]
fn validate_rejects_bad_size_and_conditioning() {
    let caps = model::descriptor().capabilities;
    // out-of-range size.
    let req = GenerationRequest {
        width: 64,
        height: 64,
        ..Default::default()
    };
    let err = validate_request(&caps, &req).unwrap_err().message();
    assert_eq!(err, "64x64 out of supported range 256..=2048");
    // non-multiple-of-16 size.
    let req = GenerationRequest {
        width: 1000,
        height: 1024,
        ..Default::default()
    };
    let err = validate_request(&caps, &req).unwrap_err().message();
    assert_eq!(err, "1000x1024 must be a multiple of 16 per side");
    // no depth conditioning.
    let req = GenerationRequest {
        conditioning: vec![Conditioning::Depth {
            image: Image::default(),
        }],
        ..Default::default()
    };
    let err = validate_request(&caps, &req).unwrap_err().message();
    assert_eq!(err, "qwen_image (T2I) does not accept Depth conditioning");
    // guidance + negative prompt + valid size passes.
    let req = GenerationRequest {
        prompt: "a fox".into(),
        negative_prompt: Some("blurry".into()),
        guidance: Some(f(4.0)),
        ..Default::default()
    };
    assert!(validate_request(&caps, &req).is_ok());
}

#[test]
fn counts_are_checked_first() {
    let caps = model::descriptor().capabilities;
    for count in [0, 9] {
        let req = GenerationRequest { count, width: 64, ..Default::default() };
        let err = validate_request(&caps, &req).unwrap_err().message();
        assert_eq!(err, format!("count {count} out of range 1..=8"));
    }
    let req = GenerationRequest { count: 8, width: 256, height: 2048, ..Default::default() };
    assert!(validate_request(&caps, &req).is_ok());
}

#[test]
fn load_rejects_single_file() {
    let spec = LoadSpec::new(WeightsSource::File("/tmp/q.safetensors".into()));
    let err = model::load(&spec).err().expect("expected an error").message();
    assert!(err.contains("snapshot directory"), "got: {err}");
}

#[test]
fn model_load_accepts_q8_spec() {
    // The eight-bit form is offered: the transformer alone is quantized.
    let spec =
        LoadSpec::new(WeightsSource::Dir("/nonexistent".into())).with_quant(Quant::Q8);
    let plan = model::load(&spec).expect("past the quantization gate");
    assert_eq!(plan.root, "/nonexistent");
    assert_eq!(
        plan.steps,
        vec![
            LoadStep::Transformer,
            LoadStep::QuantizeTransformer { bits: 8 },
            LoadStep::Tokenizer,
            LoadStep::TextEncoder,
            LoadStep::Vae,
        ]
    );
}

#[test]
fn descriptor_is_qwen_image_control() {
    let d = model_control::descriptor();
    assert_eq!(d.id, "qwen_image_control");
    assert_eq!(d.family, "qwen-image");
    assert_eq!(d.modality, Modality::Image);
    assert!(d.capabilities.accepts(ConditioningKind::Control));
    assert!(d.capabilities.supports_lora);
}

#[test]
fn load_rejects_missing_control_weights() {
    let spec = LoadSpec::new(WeightsSource::Dir("/nonexistent".into()));
    let err = model_control::load(&spec).err().expect("expected an error").message();
    assert!(err.contains("Qwen-Image-ControlNet-Union"), "got: {err}");
}

#[test]
fn load_rejects_single_file_base() {
    let spec = LoadSpec::new(WeightsSource::File("/tmp/q.safetensors".into()))
        .with_control(WeightsSource::File("/tmp/control.safetensors".into()));
    let err = model_control::load(&spec).err().expect("expected an error").message();
    assert!(err.contains("snapshot directory"), "got: {err}");
}

#[test]
fn control_is_loaded_before_quantization_and_adapters() {
    let mut spec = LoadSpec::new(WeightsSource::Dir("/base".into()))
        .with_control(WeightsSource::File("/c.safetensors".into()))
        .with_quant(Quant::Q4);
    spec.adapters.push(AdapterSpec { path: "/lora".into(), scale_bits: 0 });
    let plan = model_control::load(&spec).unwrap();
    assert_eq!(
        plan.steps,
        vec![
            LoadStep::Transformer,
            LoadStep::Controlnet,
            LoadStep::QuantizeTransformer { bits: 4 },
            LoadStep::QuantizeControlnet { bits: 4 },
            LoadStep::ApplyAdapters,
            LoadStep::Tokenizer,
            LoadStep::TextEncoder,
            LoadStep::Vae,
        ]
    );
    assert_eq!(plan.control, Some(&WeightsSource::File("/c.safetensors".into())));
}

#[test]
fn other_precisions_are_refused() {
    let mut spec = LoadSpec::new(WeightsSource::File("/f".into()));
    spec.precision = Precision::Fp32;
    assert_eq!(
        model::load(&spec).err(),
        Some(LoadError::Precision { variant: Variant::Text })
    );
    assert_eq!(
        model::load(&spec).err().unwrap().message(),
        "qwen_image: only dense bf16 is wired in the Rust port (drop the precision override)"
    );
    assert_eq!(
        model_edit::load(&spec).err(),
        Some(LoadError::Precision { variant: Variant::Edit })
    );
    assert_eq!(
        model_edit::load(&spec).err().unwrap().message(),
        "qwen_image_edit: only dense bf16 is wired in the Rust port (drop the precision override)"
    );
    assert_eq!(
        model_control::load(&spec).err().unwrap().message(),
        "qwen_image_control: only dense bf16 is wired in the Rust port (drop the precision override)"
    );
}

#[test]
fn descriptor_is_qwen_image_edit() {
    let d = model_edit::descriptor();
    assert_eq!(d.id, "qwen_image_edit");
    assert_eq!(d.modality, Modality::Image);
    assert!(d.capabilities.accepts(ConditioningKind::Reference));
    assert!(d.capabilities.accepts(ConditioningKind::MultiReference));
    assert!(!d.capabilities.accepts(ConditioningKind::Depth));
}

#[test]
fn model_edit_load_accepts_q8_spec() {
    let spec =
        LoadSpec::new(WeightsSource::Dir("/nonexistent".into())).with_quant(Quant::Q8);
    let plan = model_edit::load(&spec).expect("past the quantization gate");
    assert!(plan.steps.contains(&LoadStep::QuantizeTransformer { bits: 8 }));
    assert!(plan.steps.contains(&LoadStep::VisionLanguageEncoder));
    assert!(!plan.steps.contains(&LoadStep::TextEncoder));
}

#[test]
fn generate_requires_a_reference_image() {
    let caps = model_edit::descriptor().capabilities;
    // A valid-size request with no Reference conditioning fails validation.
    let req = GenerationRequest {
        prompt: "make it autumn".into(),
        ..Default::default()
    };
    assert!(validate_request(&caps, &req).is_ok());
    assert!(reference_images(&req).is_empty());
    let err = edit_model().generate(&req, 0).err().unwrap();
    assert!(matches!(err, GenerateError::NoReference));
    assert_eq!(
        err.message(),
        "qwen_image_edit requires a Reference or MultiReference conditioning image"
    );
}

#[test]
fn reference_images_collects_single_and_multi() {
    // A single `Reference` yields one image.
    let single = GenerationRequest {
        conditioning: vec![Conditioning::Reference {
            image: img(8),
            strength: None,
        }],
        ..Default::default()
    };
    assert_eq!(reference_images(&single).len(), 1);
    // `MultiReference` yields every image, in order (first drives the text path, last the dims).
    let multi = GenerationRequest {
        conditioning: vec![Conditioning::MultiReference {
            images: vec![img(8), img(16), img(24)],
        }],
        ..Default::default()
    };
    let got = reference_images(&multi);
    assert_eq!(got.len(), 3);
    assert_eq!(got[0].width, 8);
    assert_eq!(got.last().unwrap().width, 24);
}

#[test]
fn parameters_have_defaults() {
    let req = GenerationRequest::default();
    let p = resolve_run_params(&req, 77);
    assert_eq!((p.is_lightning, p.steps, p.guidance, p.base_seed), (false, 4, f(4.0), 77));
    let req = GenerationRequest {
        sampler: Some("lightning".into()),
        seed: Some(5),
        ..Default::default()
    };
    let p = resolve_run_params(&req, 77);
    assert_eq!((p.is_lightning, p.steps, p.base_seed), (true, 8, 5));
    assert_eq!((num_steps(0), num_steps(1), num_steps(9)), (1, 1, 9));
}

#[test]
fn blank_negative_prompts_fall_back_to_a_space() {
    for blank in [None, Some(""), Some(" \t\n"), Some("\u{3000}\u{2003}")] {
        let req = GenerationRequest {
            negative_prompt: blank.map(|s| s.to_string()),
            ..Default::default()
        };
        assert_eq!(negative_or_fallback(&req), " ");
    }
    let req = GenerationRequest {
        negative_prompt: Some("  blurry ".into()),
        ..Default::default()
    };
    assert_eq!(negative_or_fallback(&req), "  blurry ");
}

#[test]
fn a_text_run_takes_every_step_of_every_image() {
    let req = GenerationRequest {
        prompt: "a fox".into(),
        count: 2,
        steps: Some(2),
        seed: Some(u64::MAX),
        ..Default::default()
    };
    let m = text_model();
    let plan = m.generate(&req, 0).unwrap();
    assert_eq!(plan.positive, "a fox");
    assert_eq!(plan.negative, Some(" "));
    assert!(plan.init.is_none());
    let mut run = Run::begin(plan.run);
    let mut seen = Vec::new();
    loop {
        let w = run.next(false);
        if w == Work::Finished {
            break;
        }
        seen.push(w);
    }
    let step = |index, current| Work::Step { index, current, total: 2 };
    assert_eq!(
        seen,
        vec![
            Work::EncodePositive,
            Work::EncodeNegative,
            Work::Noise { seed: u64::MAX, blend: false },
            step(0, 1),
            step(1, 2),
            Work::Decode { image: 0 },
            Work::Noise { seed: 0, blend: false },
            step(0, 1),
            step(1, 2),
            Work::Decode { image: 1 },
        ]
    );
    assert_eq!(run.next(true), Work::Finished);
}

#[test]
fn a_cancelled_run_stops_before_its_next_step() {
    let plan = RunPlan {
        prepare: vec![Work::EncodePositive],
        count: 1,
        base_seed: 3,
        start: 1,
        steps: 3,
        blend: true,
    };
    let mut run = Run::begin(plan);
    assert_eq!(run.next(true), Work::EncodePositive);
    assert_eq!(run.next(true), Work::Noise { seed: 3, blend: true });
    assert_eq!(run.next(true), Work::Cancelled);
    assert_eq!(run.next(true), Work::Cancelled);
    assert_eq!(run.next(false), Work::Step { index: 1, current: 1, total: 2 });
    assert_eq!(run.next(false), Work::Step { index: 2, current: 2, total: 2 });
    assert_eq!(run.next(true), Work::Decode { image: 0 });
    assert_eq!(run.next(false), Work::Finished);
    assert_eq!(GenerateError::Cancelled.message(), "generation cancelled");
}

#[test]
fn an_image_to_image_run_starts_later() {
    let req = GenerationRequest {
        steps: Some(4),
        strength: Some(f(0.1)),
        conditioning: vec![Conditioning::Reference { image: img(8), strength: Some(f(0.6)) }],
        ..Default::default()
    };
    let m = text_model();
    let plan = m.generate(&req, 9).unwrap();
    // The strength of the image wins over that of the request.
    assert_eq!(plan.run.start, 2);
    assert_eq!(plan.run.steps, 4);
    assert!(plan.run.blend);
    assert_eq!(plan.run.base_seed, 9);
    assert_eq!(plan.init.unwrap().width, 8);
    assert_eq!(plan.run.prepare.last(), Some(&Work::EncodeImage { index: 0 }));
}

#[test]
fn a_request_strength_serves_where_the_image_has_none() {
    let req = GenerationRequest {
        steps: Some(8),
        strength: Some(f(0.5)),
        conditioning: vec![Conditioning::Reference { image: img(8), strength: None }],
        ..Default::default()
    };
    assert_eq!(text_model().generate(&req, 0).unwrap().run.start, 4);
    let none = GenerationRequest {
        steps: Some(8),
        conditioning: vec![Conditioning::Reference { image: img(8), strength: None }],
        ..Default::default()
    };
    let m = text_model();
    let plan = m.generate(&none, 0).unwrap();
    assert_eq!(plan.run.start, 0);
    assert!(plan.init.is_none());
}

#[test]
fn text_runs_refuse_a_second_reference_and_few_step_images() {
    let two = GenerationRequest {
        conditioning: vec![
            Conditioning::Reference { image: img(8), strength: None },
            Conditioning::Reference { image: img(8), strength: None },
        ],
        ..Default::default()
    };
    let err = text_model().generate(&two, 0).err().unwrap();
    assert!(matches!(err, GenerateError::MultipleReferences));
    assert!(err.message().contains("multiple reference images"));
    let fast = GenerationRequest {
        sampler: Some("lightning".into()),
        conditioning: vec![Conditioning::Reference { image: img(8), strength: Some(f(0.5)) }],
        ..Default::default()
    };
    let err = text_model().generate(&fast, 0).err().unwrap();
    assert!(matches!(err, GenerateError::LightningFromImage));
    assert!(err.message().contains("txt2img-only"));
    // Without a strength nothing starts from the image, and the few-step run goes ahead.
    let plain = GenerationRequest {
        sampler: Some("lightning".into()),
        conditioning: vec![Conditioning::Reference { image: img(8), strength: None }],
        ..Default::default()
    };
    let m = text_model();
    let plan = m.generate(&plain, 0).unwrap();
    assert_eq!(plan.negative, None);
    assert_eq!(plan.run.prepare, vec![Work::EncodePositive]);
    assert_eq!(plan.run.steps, 8);
    assert!(matches!(
        text_model().generate(&GenerationRequest { count: 0, ..Default::default() }, 0),
        Err(GenerateError::Request(_))
    ));
}

#[test]
fn control_needs_one_pose() {
    let pose = |kind| Conditioning::Control { image: img(16), kind, scale: f(0.75) };
    let with = |conditioning| GenerationRequest { conditioning, ..Default::default() };
    let m = control_model();

    let none = with(vec![]);
    assert!(matches!(m.validate(&none), Err(GenerateError::NoControl)));
    let err = m.resolve_control(&none).err().unwrap();
    assert_eq!(
        err.message(),
        "qwen_image_control requires a Control (pose skeleton) conditioning"
    );

    let canny = with(vec![pose(ControlKind::Canny)]);
    let err = m.generate(&canny, 0).err().unwrap();
    assert_eq!(err.message(), "qwen_image_control v1 supports pose control only, got Canny");

    let twice = with(vec![pose(ControlKind::Pose), pose(ControlKind::Pose)]);
    let err = m.generate(&twice, 0).err().unwrap();
    assert_eq!(err.message(), "qwen_image_control: a single control image is supported");

    // The first objection stands.
    let mixed = with(vec![pose(ControlKind::Pose), pose(ControlKind::Depth)]);
    let err = m.generate(&mixed, 0).err().unwrap();
    assert!(matches!(err, GenerateError::NotAPose { kind: ControlKind::Depth }));

    let one = with(vec![pose(ControlKind::Pose)]);
    let plan = m.generate(&one, 0).unwrap();
    assert_eq!(plan.scale, f(0.75));
    assert_eq!(plan.control.width, 16);
    assert_eq!(plan.run.start, 0);
    assert!(!plan.run.blend);
    assert_eq!(
        plan.run.prepare,
        vec![Work::EncodePositive, Work::EncodeNegative, Work::EncodeImage { index: 0 }]
    );
    assert!(check_prompt(Variant::Control, 1).is_ok());
    let err = check_prompt(Variant::Control, 0).err().unwrap();
    assert_eq!(err.message(), "qwen_image_control: empty prompt");
    let err = check_prompt(Variant::Text, 0).err().unwrap();
    assert_eq!(err.message(), "qwen_image: empty prompt");
}

#[test]
fn an_edit_encodes_every_reference() {
    let req = GenerationRequest {
        prompt: "make it autumn".into(),
        conditioning: vec![
            Conditioning::Reference { image: img(8), strength: None },
            Conditioning::MultiReference { images: vec![img(16), img(24)] },
        ],
        ..Default::default()
    };
    let m = edit_model();
    let plan = m.generate(&req, 1).unwrap();
    assert_eq!(plan.first().width, 8);
    assert_eq!(plan.last().width, 24);
    assert_eq!(plan.negative, Some(""));
    assert_eq!(
        plan.run.prepare,
        vec![
            Work::EncodeVision,
            Work::EncodePositive,
            Work::EncodeNegative,
            Work::EncodeImage { index: 0 },
            Work::EncodeImage { index: 1 },
            Work::EncodeImage { index: 2 },
        ]
    );
    assert_eq!(model_edit::vision_grids(&[1, 2, 3, 4, 5, 6]), vec![(1, 2, 3), (4, 5, 6)]);
}
