//! Text to image under the control of a pose.
use super::generation::{
    negative_or_fallback, negative_text, num_steps, params_of, resolve_run_params, schedule_steps,
    steps_of, GenerateError, RunParams,
};
use super::model::{capabilities_with, family_capabilities, preparation};
use super::load::{loads, plan_load, LoadError, LoadPlan, LoadSpec, Variant};
use super::request::{
    asks_for_lightning, complaint, suits, validate_request, Conditioning, ConditioningKind,
    ControlKind, GenerationRequest, Image, Modality, ModelDescriptor,
};
use super::run::{RunPlan, Work};
use crate::binary32::Binary32;
use crate::text::blank;
use vstd::prelude::*;

verus! {

/// The name under which the model is registered.
pub const MODEL_ID: &'static str = "qwen_image_control";

/// The model's identity and capabilities.
pub fn descriptor() -> (r: ModelDescriptor)
    ensures
        r.id@ == "qwen_image_control"@,
        r.family@ == "qwen-image"@,
        r.backend@ == "mlx"@,
        r.modality == Modality::Image,
        family_capabilities(r.capabilities, seq![ConditioningKind::Control]),
{
    let mut kinds: Vec<ConditioningKind> = Vec::new();
    kinds.push(ConditioningKind::Control);
    assert(kinds@ =~= seq![ConditioningKind::Control]);
    ModelDescriptor {
        id: MODEL_ID,
        family: "qwen-image",
        backend: "mlx",
        modality: Modality::Image,
        capabilities: capabilities_with(kinds),
    }
}

/// Plan the loading of the model: a base snapshot directory and the control branch.
pub fn load<'a>(spec: &'a LoadSpec) -> (r: Result<LoadPlan<'a>, LoadError>)
    ensures
        loads(Variant::Control, *spec, r),
{
    plan_load(Variant::Control, spec)
}

/// What the first `n` conditionings say about the control image.
pub enum Control {
    /// There is none.
    Absent,
    /// It is conditioning `index`.
    At { index: int },
    /// Conditioning `index` is a control image, but shows no pose.
    NotAPose { index: int },
    /// There is a second one.
    Second,
}

/// What the first `n` conditionings say about the control image: the first objection stands.
pub open spec fn control_in(req: GenerationRequest, n: nat) -> Control
    decreases n,
{
    if n == 0 {
        Control::Absent
    } else {
        let before = control_in(req, (n - 1) as nat);
        match (before, req.conditioning@[n - 1]) {
            (Control::NotAPose { .. }, _) => before,
            (Control::Second, _) => before,
            (_, Conditioning::Control { kind, .. }) => if kind != ControlKind::Pose {
                Control::NotAPose { index: n - 1 }
            } else if before is At {
                Control::Second
            } else {
                Control::At { index: n - 1 }
            },
            _ => before,
        }
    }
}

/// The control image of a request.
pub open spec fn control_of(req: GenerationRequest) -> Control {
    control_in(req, req.conditioning@.len())
}

/// Some conditioning is a control image.
pub open spec fn has_control(req: GenerationRequest) -> bool {
    exists|i: int| 0 <= i < req.conditioning@.len() && (#[trigger] req.conditioning@[i]) is Control
}

proof fn objections_stand(req: GenerationRequest, a: nat, b: nat)
    requires
        a <= b,
        control_in(req, a) is NotAPose || control_in(req, a) is Second,
    ensures
        control_in(req, b) == control_in(req, a),
    decreases b,
{
    if a < b {
        objections_stand(req, a, (b - 1) as nat);
    }
}

proof fn absence_is_absence(req: GenerationRequest, n: nat)
    ensures
        control_in(req, n) is Absent <==> forall|i: int|
            0 <= i < n ==> !((#[trigger] req.conditioning@[i]) is Control),
        control_in(req, n) matches Control::At { index } ==> 0 <= index < n
            && req.conditioning@[index] is Control,
    decreases n,
{
    if n > 0 {
        absence_is_absence(req, (n - 1) as nat);
        if control_in(req, n) is Absent {
            assert forall|i: int| 0 <= i < n implies !((#[trigger] req.conditioning@[i]) is Control) by {
                if i < n - 1 {
                    assert(control_in(req, (n - 1) as nat) is Absent);
                }
            }
        } else if control_in(req, (n - 1) as nat) is Absent {
            assert(req.conditioning@[n - 1] is Control);
        }
    }
}

/// What a run under control is made of.
#[derive(Debug)]
pub struct ControlPlan<'a> {
    pub params: RunParams,
    pub positive: &'a str,
    /// The negative prompt, where two predictions are combined.
    pub negative: Option<&'a str>,
    /// The pose.
    pub control: &'a Image,
    /// The weight of the control residuals.
    pub scale: Binary32,
    pub run: RunPlan,
}

/// The generator under control of a pose.
#[derive(Debug)]
pub struct QwenImageControl {
    pub descriptor: ModelDescriptor,
}

impl QwenImageControl {
    /// Check a request: it also needs a control image.
    pub fn validate(&self, req: &GenerationRequest) -> (r: Result<(), GenerateError>)
        ensures
            ({
                let caps = self.descriptor.capabilities;
                match r {
                    Ok(_) => suits(caps, *req) && has_control(*req),
                    Err(e) => if !suits(caps, *req) {
                        e matches GenerateError::Request(c) && complaint(caps, *req, c)
                    } else {
                        !has_control(*req) && e == GenerateError::NoControl
                    },
                }
            }),
    {
        if let Err(e) = validate_request(&self.descriptor.capabilities, req) {
            return Err(GenerateError::Request(e));
        }
        let mut i: usize = 0;
        while i < req.conditioning.len()
            invariant
                i <= req.conditioning@.len(),
                suits(self.descriptor.capabilities, *req),
                forall|j: int| 0 <= j < i ==> !((#[trigger] req.conditioning@[j]) is Control),
            decreases req.conditioning@.len() - i,
        {
            if let Conditioning::Control { .. } = &req.conditioning[i] {
                assert(req.conditioning@[i as int] is Control);
                return Ok(());
            }
            i = i + 1;
        }
        Err(GenerateError::NoControl)
    }

    /// The control image and its weight: one pose.
    pub fn resolve_control<'a>(&self, req: &'a GenerationRequest) -> (r: Result<
        (&'a Image, Binary32),
        GenerateError,
    >)
        ensures
            match r {
                Ok((image, scale)) => {
                    &&& control_of(*req) matches Control::At { index }
                    &&& *image == req.conditioning@[index]->Control_image
                    &&& scale == req.conditioning@[index]->Control_scale
                },
                Err(e) => match control_of(*req) {
                    Control::Absent => e == GenerateError::NoControl,
                    Control::At { .. } => false,
                    Control::NotAPose { index } => e == (GenerateError::NotAPose {
                        kind: req.conditioning@[index]->Control_kind,
                    }),
                    Control::Second => e == GenerateError::MultipleControls,
                },
            },
    {
        let mut found: Option<(&'a Image, Binary32)> = None;
        let mut i: usize = 0;
        while i < req.conditioning.len()
            invariant
                i <= req.conditioning@.len(),
                match found {
                    None => control_in(*req, i as nat) is Absent,
                    Some((image, scale)) => {
                        &&& control_in(*req, i as nat) matches Control::At { index }
                        &&& *image == req.conditioning@[index]->Control_image
                        &&& scale == req.conditioning@[index]->Control_scale
                    },
                },
            decreases req.conditioning@.len() - i,
        {
            if let Conditioning::Control { image, kind, scale } = &req.conditioning[i] {
                if *kind != ControlKind::Pose {
                    proof {
                        objections_stand(*req, (i + 1) as nat, req.conditioning@.len());
                    }
                    return Err(GenerateError::NotAPose { kind: *kind });
                }
                if found.is_some() {
                    proof {
                        objections_stand(*req, (i + 1) as nat, req.conditioning@.len());
                    }
                    return Err(GenerateError::MultipleControls);
                }
                found = Some((image, *scale));
            }
            i = i + 1;
        }
        match found {
            Some(x) => Ok(x),
            None => Err(GenerateError::NoControl),
        }
    }

    /// Plan the generation that a request asks for. `fallback_seed` serves where it names no seed.
    pub fn generate<'a>(&self, req: &'a GenerationRequest, fallback_seed: u64) -> (r: Result<
        ControlPlan<'a>,
        GenerateError,
    >)
        ensures
            ({
                let caps = self.descriptor.capabilities;
                let lightning = asks_for_lightning(*req);
                match r {
                    Ok(plan) => {
                        &&& suits(caps, *req)
                        &&& control_of(*req) matches Control::At { index }
                        &&& *plan.control == req.conditioning@[index]->Control_image
                        &&& plan.scale == req.conditioning@[index]->Control_scale
                        &&& plan.params == params_of(*req, fallback_seed)
                        &&& plan.positive@ == req.prompt@
                        &&& match req.guidance {
                            Some(g) => plan.params.guidance == g,
                            None => plan.params.guidance.bits == 0x4080_0000,
                        }
                        &&& match req.steps {
                            Some(k) => plan.params.steps == k,
                            None => plan.params.steps == if plan.params.is_lightning {
                                8u32
                            } else {
                                4u32
                            },
                        }
                        &&& match req.seed {
                            Some(k) => plan.run.base_seed == k,
                            None => plan.run.base_seed == fallback_seed,
                        }
                        &&& plan.params.is_lightning == (req.sampler is Some && req.sampler->Some_0@
                            == "lightning"@)
                        &&& plan.params.steps >= 1 ==> plan.run.steps == plan.params.steps
                        &&& plan.negative is None <==> plan.params.is_lightning
                        &&& plan.negative is Some ==> match req.negative_prompt {
                            Some(p) => plan.negative->Some_0@ == p@ || (blank(p@)
                                && plan.negative->Some_0@ == " "@),
                            None => plan.negative->Some_0@ == " "@,
                        }
                        &&& match plan.negative {
                            Some(p) => !lightning && p@ == negative_text(*req),
                            None => lightning,
                        }
                        &&& plan.run.wf()
                        &&& plan.run.prepare@ == preparation(lightning, true)
                        &&& plan.run.count == req.count
                        &&& plan.run.base_seed == params_of(*req, fallback_seed).base_seed
                        &&& plan.run.start == 0
                        &&& plan.run.steps == schedule_steps(steps_of(*req))
                        &&& !plan.run.blend
                    },
                    Err(e) => if !suits(caps, *req) {
                        e matches GenerateError::Request(c) && complaint(caps, *req, c)
                    } else {
                        match control_of(*req) {
                            Control::Absent => e == GenerateError::NoControl,
                            Control::At { .. } => false,
                            Control::NotAPose { index } => e == (GenerateError::NotAPose {
                                kind: req.conditioning@[index]->Control_kind,
                            }),
                            Control::Second => e == GenerateError::MultipleControls,
                        }
                    },
                }
            }),
    {
        proof {
            absence_is_absence(*req, req.conditioning@.len());
        }
        if let Err(e) = self.validate(req) {
            return Err(e);
        }
        let params: RunParams = resolve_run_params(req, fallback_seed);
        let (control, scale): (&'a Image, Binary32) = match self.resolve_control(req) {
            Ok(x) => x,
            Err(e) => {
                return Err(e);
            },
        };
        let negative: Option<&'a str> = if params.is_lightning {
            None
        } else {
            Some(negative_or_fallback(req))
        };
        let mut prepare: Vec<Work> = Vec::new();
        prepare.push(Work::EncodePositive);
        if !params.is_lightning {
            prepare.push(Work::EncodeNegative);
        }
        prepare.push(Work::EncodeImage { index: 0 });
        assert(prepare@ =~= preparation(params.is_lightning, true));
        let steps: u32 = num_steps(params.steps);
        Ok(
            ControlPlan {
                params,
                positive: req.prompt.as_str(),
                negative,
                control,
                scale,
                run: RunPlan {
                    prepare,
                    count: req.count,
                    base_seed: params.base_seed,
                    start: 0,
                    steps,
                    blend: false,
                },
            },
        )
    }
}

spec fn controls(req: GenerationRequest, k: int) -> bool {
    req.conditioning@[k] is Control
}

spec fn poses(req: GenerationRequest, k: int) -> bool {
    req.conditioning@[k] is Control && req.conditioning@[k]->Control_kind == ControlKind::Pose
}

proof fn controls_are_scanned(req: GenerationRequest, n: nat)
    requires
        n <= req.conditioning@.len(),
    ensures
        match control_in(req, n) {
            Control::Absent => forall|k: int| 0 <= k < n ==> !#[trigger] controls(req, k),
            Control::At { index } => {
                &&& 0 <= index < n
                &&& poses(req, index)
                &&& forall|k: int| 0 <= k < n && k != index ==> !#[trigger] controls(req, k)
            },
            Control::NotAPose { index } => {
                &&& 0 <= index < n
                &&& controls(req, index)
                &&& !poses(req, index)
                &&& forall|k: int|
                    0 <= k < index && #[trigger] controls(req, k) ==> poses(req, k)
            },
            Control::Second => exists|k: int, l: int|
                0 <= k < l < n && #[trigger] poses(req, k) && #[trigger] poses(req, l),
        },
    decreases n,
{
    if n > 0 {
        controls_are_scanned(req, (n - 1) as nat);
        let before = control_in(req, (n - 1) as nat);
        if before is At && control_in(req, n) is Second {
            assert(poses(req, before->At_index) && poses(req, n - 1));
        }
        if before is Second {
            let (k, l) = choose|k: int, l: int|
                0 <= k < l < n - 1 && #[trigger] poses(req, k) && #[trigger] poses(req, l);
            assert(poses(req, k) && poses(req, l));
        }
    }
}

/// A request is served with the one control it has, a pose; one without a control, with a control
/// that is no pose or with two is not. The first conditioning at fault in the order of the request
/// decides which of these is said.
pub proof fn one_pose_controls_a_run(req: GenerationRequest, i: int)
    requires
        0 <= i < req.conditioning@.len(),
        req.conditioning@[i] is Control,
    ensures
        ({
            let c = req.conditioning@;
            let pose = c[i]->Control_kind == ControlKind::Pose;
            let only = forall|k: int|
                0 <= k < c.len() && k != i ==> !(#[trigger] c[k] is Control);
            &&& control_of(req) != Control::Absent
            &&& only && pose ==> control_of(req) == (Control::At { index: i })
            &&& only && !pose ==> control_of(req) == (Control::NotAPose { index: i })
            &&& !only ==> !(control_of(req) is At)
            &&& !only && (forall|k: int|
                0 <= k < c.len() && #[trigger] c[k] is Control ==> c[k]->Control_kind
                    == ControlKind::Pose) ==> control_of(req) == Control::Second
        }),
{
    controls_are_scanned(req, req.conditioning@.len());
    let c = req.conditioning@;
    assert(controls(req, i));
    match control_of(req) {
        Control::At { index } => {
            assert(index == i);
            assert forall|k: int| 0 <= k < c.len() && k != i implies !(#[trigger] c[k]
                is Control) by {
                assert(!controls(req, k));
            }
        },
        Control::NotAPose { index } => {
            assert(c[index] is Control);
        },
        Control::Second => {
            let (k, l) = choose|k: int, l: int|
                0 <= k < l < c.len() && #[trigger] poses(req, k) && #[trigger] poses(req, l);
            assert(c[k] is Control && c[l] is Control);
        },
        Control::Absent => {},
    }
}

/// A request without a control is told so.
pub proof fn no_control_is_absent(req: GenerationRequest)
    ensures
        control_of(req) == Control::Absent <==> forall|k: int|
            0 <= k < req.conditioning@.len() ==> !(#[trigger] req.conditioning@[k] is Control),
        has_control(req) <==> exists|k: int|
            0 <= k < req.conditioning@.len() && #[trigger] req.conditioning@[k] is Control,
{
    controls_are_scanned(req, req.conditioning@.len());
    let c = req.conditioning@;
    match control_of(req) {
        Control::At { index } => {
            assert(c[index] is Control);
        },
        Control::NotAPose { index } => {
            assert(c[index] is Control);
        },
        Control::Second => {
            let (k, l) = choose|k: int, l: int|
                0 <= k < l < c.len() && #[trigger] poses(req, k) && #[trigger] poses(req, l);
            assert(c[k] is Control);
        },
        Control::Absent => {
            assert forall|k: int| 0 <= k < c.len() implies !(#[trigger] c[k] is Control) by {
                assert(!controls(req, k));
            }
        },
    }
}

} // verus!
