//! Text to image, optionally starting from an image.
use super::generation::{
    negative_or_fallback, negative_text, num_steps, params_of, resolve_run_params, schedule_steps,
    steps_of, GenerateError, RunParams,
};
use super::load::{loads, plan_load, LoadError, LoadPlan, LoadSpec, Variant};
use super::pipeline::{init_time_step, runs_start_within_their_steps, start_step};
use super::request::{
    asks_for_lightning, complaint, suits, validate_request, Capabilities, Conditioning,
    ConditioningKind, GenerationRequest, Image, Modality, ModelDescriptor, Quant,
    LIGHTNING_SAMPLER,
};
use super::run::{RunPlan, Work};
use crate::binary32::{Binary32, EXACT_LIMIT};
use crate::text::blank;
use vstd::prelude::*;

verus! {

/// The name under which the model is registered.
pub const MODEL_ID: &'static str = "qwen_image";

/// The capabilities that all models of the family share; `kinds` are the kinds of conditioning.
pub open spec fn family_capabilities(c: Capabilities, kinds: Seq<ConditioningKind>) -> bool {
    &&& c.supports_negative_prompt
    &&& c.supports_guidance
    &&& c.supports_true_cfg
    &&& c.conditioning@ == kinds
    &&& c.supports_lora
    &&& c.supports_lokr
    &&& c.samplers@.len() == 1
    &&& c.samplers@[0]@ == LIGHTNING_SAMPLER@
    &&& c.schedulers@.len() == 0
    &&& c.min_size == 256
    &&& c.max_size == 2048
    &&& c.max_count == 8
    &&& c.mac_only
    &&& c.supported_quants@ == seq![Quant::Q4, Quant::Q8]
    &&& !c.supports_kv_cache
    &&& c.requires_sigma_shift
}

/// The capabilities of a model of the family.
pub fn capabilities_with(conditioning: Vec<ConditioningKind>) -> (r: Capabilities)
    ensures
        family_capabilities(r, conditioning@),
{
    let mut samplers: Vec<&'static str> = Vec::new();
    samplers.push(LIGHTNING_SAMPLER);
    let mut quants: Vec<Quant> = Vec::new();
    quants.push(Quant::Q4);
    quants.push(Quant::Q8);
    assert(quants@ =~= seq![Quant::Q4, Quant::Q8]);
    Capabilities {
        supports_negative_prompt: true,
        supports_guidance: true,
        supports_true_cfg: true,
        conditioning,
        supports_lora: true,
        supports_lokr: true,
        samplers,
        schedulers: Vec::new(),
        min_size: 256,
        max_size: 2048,
        max_count: 8,
        mac_only: true,
        supported_quants: quants,
        supports_kv_cache: false,
        requires_sigma_shift: true,
    }
}

/// The model's identity and capabilities.
pub fn descriptor() -> (r: ModelDescriptor)
    ensures
        r.id@ == "qwen_image"@,
        r.family@ == "qwen-image"@,
        r.backend@ == "mlx"@,
        r.modality == Modality::Image,
        family_capabilities(r.capabilities, seq![ConditioningKind::Reference]),
{
    let mut kinds: Vec<ConditioningKind> = Vec::new();
    kinds.push(ConditioningKind::Reference);
    assert(kinds@ =~= seq![ConditioningKind::Reference]);
    ModelDescriptor {
        id: MODEL_ID,
        family: "qwen-image",
        backend: "mlx",
        modality: Modality::Image,
        capabilities: capabilities_with(kinds),
    }
}

/// Plan the loading of the model: a snapshot directory, in the supported precision.
pub fn load<'a>(spec: &'a LoadSpec) -> (r: Result<LoadPlan<'a>, LoadError>)
    ensures
        loads(Variant::Text, *spec, r),
{
    plan_load(Variant::Text, spec)
}

/// Conditioning `i` is a reference.
pub open spec fn is_reference(req: GenerationRequest, i: int) -> bool {
    req.conditioning@[i] is Reference
}

/// How many of the first `n` conditionings are references.
pub open spec fn references_in(req: GenerationRequest, n: nat) -> nat
    decreases n,
{
    if n == 0 {
        0
    } else {
        references_in(req, (n - 1) as nat) + if is_reference(req, n - 1) {
            1nat
        } else {
            0nat
        }
    }
}

/// The first reference among the first `n` conditionings.
pub open spec fn reference_at(req: GenerationRequest, n: nat) -> Option<int>
    decreases n,
{
    if n == 0 {
        None
    } else {
        match reference_at(req, (n - 1) as nat) {
            Some(i) => Some(i),
            None => if is_reference(req, n - 1) {
                Some(n - 1)
            } else {
                None
            },
        }
    }
}

/// The strength of the reference at conditioning `i`: its own, or that of the request.
pub open spec fn strength_of(req: GenerationRequest, i: int) -> Option<Binary32> {
    match req.conditioning@[i] {
        Conditioning::Reference { strength, .. } => match strength {
            Some(s) => Some(s),
            None => req.strength,
        },
        _ => None,
    }
}

/// The step at which the run of a request starts: zero without a reference.
pub open spec fn first_step(req: GenerationRequest) -> int {
    match reference_at(req, req.conditioning@.len()) {
        Some(i) => start_step(steps_of(req) as int, strength_of(req, i)),
        None => 0,
    }
}

proof fn references_grow(req: GenerationRequest, a: nat, b: nat)
    requires
        a <= b,
    ensures
        references_in(req, a) <= references_in(req, b),
    decreases b,
{
    if a < b {
        references_grow(req, a, (b - 1) as nat);
    }
}

/// A run whose steps single precision can count starts within them.
pub proof fn runs_start_in_time(req: GenerationRequest)
    requires
        steps_of(req) <= EXACT_LIMIT,
    ensures
        first_step(req) <= schedule_steps(steps_of(req)),
{
    if let Some(i) = reference_at(req, req.conditioning@.len()) {
        if let Some(s) = strength_of(req, i) {
            if (Binary32 { bits: 0 }).less(s) {
                runs_start_within_their_steps(steps_of(req) as usize, s);
            }
        }
    }
}

/// What a run without failure is made of.
#[derive(Debug)]
pub struct GenerationPlan<'a> {
    pub params: RunParams,
    pub positive: &'a str,
    /// The negative prompt, where two predictions are combined.
    pub negative: Option<&'a str>,
    /// The image that the run starts from.
    pub init: Option<&'a Image>,
    pub run: RunPlan,
}

/// The work before the first image.
pub open spec fn preparation(lightning: bool, from_image: bool) -> Seq<Work> {
    seq![Work::EncodePositive] + (if lightning {
        Seq::empty()
    } else {
        seq![Work::EncodeNegative]
    }) + (if from_image {
        seq![Work::EncodeImage { index: 0 }]
    } else {
        Seq::empty()
    })
}

/// The generator from text.
#[derive(Debug)]
pub struct QwenImage {
    pub descriptor: ModelDescriptor,
}

impl QwenImage {
    /// Check a request.
    pub fn validate(&self, req: &GenerationRequest) -> (r: Result<(), GenerateError>)
        ensures
            match r {
                Ok(_) => suits(self.descriptor.capabilities, *req),
                Err(e) => {
                    &&& !suits(self.descriptor.capabilities, *req)
                    &&& e matches GenerateError::Request(c)
                    &&& complaint(self.descriptor.capabilities, *req, c)
                },
            },
    {
        match validate_request(&self.descriptor.capabilities, req) {
            Ok(()) => Ok(()),
            Err(e) => Err(GenerateError::Request(e)),
        }
    }

    /// The image to start from and its strength: of one reference at most.
    pub fn resolve_reference<'a>(&self, req: &'a GenerationRequest) -> (r: Result<
        Option<(&'a Image, Option<Binary32>)>,
        GenerateError,
    >)
        ensures
            ({
                let n = references_in(*req, req.conditioning@.len());
                match r {
                    Ok(None) => n == 0 && reference_at(*req, req.conditioning@.len()) is None,
                    Ok(Some((image, strength))) => {
                        &&& n == 1
                        &&& reference_at(*req, req.conditioning@.len()) matches Some(i)
                        &&& is_reference(*req, i)
                        &&& *image == req.conditioning@[i]->Reference_image
                        &&& strength == strength_of(*req, i)
                    },
                    Err(e) => n > 1 && e == GenerateError::MultipleReferences,
                }
            }),
    {
        let mut reference: Option<(&'a Image, Option<Binary32>)> = None;
        let mut i: usize = 0;
        while i < req.conditioning.len()
            invariant
                i <= req.conditioning@.len(),
                match reference {
                    None => references_in(*req, i as nat) == 0 && reference_at(
                        *req,
                        i as nat,
                    ) is None,
                    Some((image, strength)) => {
                        &&& references_in(*req, i as nat) == 1
                        &&& reference_at(*req, i as nat) matches Some(k)
                        &&& is_reference(*req, k)
                        &&& *image == req.conditioning@[k]->Reference_image
                        &&& strength == strength_of(*req, k)
                    },
                },
            decreases req.conditioning@.len() - i,
        {
            proof {
                references_grow(*req, (i + 1) as nat, req.conditioning@.len());
            }
            if let Conditioning::Reference { image, strength } = &req.conditioning[i] {
                if reference.is_some() {
                    return Err(GenerateError::MultipleReferences);
                }
                let resolved: Option<Binary32> = match strength {
                    Some(s) => Some(*s),
                    None => req.strength,
                };
                reference = Some((image, resolved));
            }
            i = i + 1;
        }
        Ok(reference)
    }

    /// Plan the generation that a request asks for. `fallback_seed` serves where it names no seed.
    pub fn generate<'a>(&self, req: &'a GenerationRequest, fallback_seed: u64) -> (r: Result<
        GenerationPlan<'a>,
        GenerateError,
    >)
        requires
            suits(self.descriptor.capabilities, *req) && references_in(
                *req,
                req.conditioning@.len(),
            ) <= 1 && !asks_for_lightning(*req) ==> first_step(*req) <= schedule_steps(
                steps_of(*req),
            ),
        ensures
            ({
                let caps = self.descriptor.capabilities;
                let n = references_in(*req, req.conditioning@.len());
                let start = first_step(*req);
                let lightning = asks_for_lightning(*req);
                match r {
                    Ok(plan) => {
                        &&& suits(caps, *req)
                        &&& n <= 1
                        &&& !(lightning && start > 0)
                        &&& plan.params == params_of(*req, fallback_seed)
                        &&& plan.positive@ == req.prompt@
                        &&& match req.guidance {
                            Some(g) => plan.params.guidance == g,
                            None => plan.params.guidance.bits == 0x4080_0000,
                        }
                        &&& match req.steps {
                            Some(k) => plan.params.steps == k,
                            None => plan.params.steps == if plan.params.is_lightning {
                                8u32
                            } else {
                                4u32
                            },
                        }
                        &&& match req.seed {
                            Some(k) => plan.run.base_seed == k,
                            None => plan.run.base_seed == fallback_seed,
                        }
                        &&& plan.params.is_lightning == (req.sampler is Some && req.sampler->Some_0@
                            == "lightning"@)
                        &&& plan.params.steps >= 1 ==> plan.run.steps == plan.params.steps
                        &&& plan.negative is None <==> plan.params.is_lightning
                        &&& plan.negative is Some ==> match req.negative_prompt {
                            Some(p) => plan.negative->Some_0@ == p@ || (blank(p@)
                                && plan.negative->Some_0@ == " "@),
                            None => plan.negative->Some_0@ == " "@,
                        }
                        &&& match plan.negative {
                            Some(p) => !lightning && p@ == negative_text(*req),
                            None => lightning,
                        }
                        &&& match plan.init {
                            Some(image) => {
                                &&& start > 0
                                &&& reference_at(*req, req.conditioning@.len()) matches Some(i)
                                &&& *image == req.conditioning@[i]->Reference_image
                            },
                            None => start == 0,
                        }
                        &&& plan.run.wf()
                        &&& plan.run.prepare@ == preparation(lightning, start > 0)
                        &&& plan.run.count == req.count
                        &&& plan.run.base_seed == params_of(*req, fallback_seed).base_seed
                        &&& plan.run.start == start
                        &&& plan.run.steps == schedule_steps(steps_of(*req))
                        &&& plan.run.blend == (start > 0)
                    },
                    Err(e) => if !suits(caps, *req) {
                        e matches GenerateError::Request(c) && complaint(caps, *req, c)
                    } else if n > 1 {
                        e == GenerateError::MultipleReferences
                    } else {
                        lightning && start > 0 && e == GenerateError::LightningFromImage
                    },
                }
            }),
    {
        if let Err(e) = self.validate(req) {
            return Err(e);
        }
        let params: RunParams = resolve_run_params(req, fallback_seed);
        let reference: Option<(&'a Image, Option<Binary32>)> = match self.resolve_reference(req) {
            Ok(x) => x,
            Err(e) => {
                return Err(e);
            },
        };
        let start: usize = match reference {
            Some((_, strength)) => init_time_step(params.steps as usize, strength),
            None => 0,
        };
        assert(start == first_step(*req));
        if params.is_lightning && start > 0 {
            return Err(GenerateError::LightningFromImage);
        }
        let negative: Option<&'a str> = if params.is_lightning {
            None
        } else {
            Some(negative_or_fallback(req))
        };
        let init: Option<&'a Image> = match reference {
            Some((image, _)) => if start > 0 {
                Some(image)
            } else {
                None
            },
            None => None,
        };
        let mut prepare: Vec<Work> = Vec::new();
        prepare.push(Work::EncodePositive);
        if !params.is_lightning {
            prepare.push(Work::EncodeNegative);
        }
        if start > 0 {
            prepare.push(Work::EncodeImage { index: 0 });
        }
        assert(prepare@ =~= preparation(params.is_lightning, start > 0));
        let steps: u32 = num_steps(params.steps);
        Ok(
            GenerationPlan {
                params,
                positive: req.prompt.as_str(),
                negative,
                init,
                run: RunPlan {
                    prepare,
                    count: req.count,
                    base_seed: params.base_seed,
                    start: start as u32,
                    steps,
                    blend: start > 0,
                },
            },
        )
    }
}

/// The reference that a run starts from is the first of the request, and there is one exactly where
/// the request has a reference.
pub proof fn the_first_reference_is_used(req: GenerationRequest, n: nat)
    requires
        n <= req.conditioning@.len(),
    ensures
        match reference_at(req, n) {
            Some(i) => {
                &&& 0 <= i < n
                &&& req.conditioning@[i] is Reference
                &&& forall|k: int| 0 <= k < i ==> !(#[trigger] req.conditioning@[k] is Reference)
            },
            None => forall|k: int| 0 <= k < n ==> !(#[trigger] req.conditioning@[k] is Reference),
        },
        references_in(req, n) == 0 <==> reference_at(req, n) is None,
    decreases n,
{
    if n > 0 {
        the_first_reference_is_used(req, (n - 1) as nat);
    }
}

proof fn two_references_count(req: GenerationRequest, n: nat, i: int, j: int)
    requires
        0 <= i < j < n <= req.conditioning@.len(),
        req.conditioning@[i] is Reference,
        req.conditioning@[j] is Reference,
    ensures
        references_in(req, n) >= 2,
    decreases n,
{
    if j < n - 1 {
        two_references_count(req, (n - 1) as nat, i, j);
    } else {
        the_first_reference_is_used(req, j as nat);
    }
}

/// A request has more than one reference exactly where two of its conditionings are references.
pub proof fn references_are_counted(req: GenerationRequest, n: nat)
    requires
        n <= req.conditioning@.len(),
    ensures
        references_in(req, n) > 1 <==> exists|i: int, j: int|
            0 <= i < j < n && #[trigger] req.conditioning@[i] is Reference
                && #[trigger] req.conditioning@[j] is Reference,
    decreases n,
{
    if exists|i: int, j: int|
        0 <= i < j < n && #[trigger] req.conditioning@[i] is Reference
            && #[trigger] req.conditioning@[j] is Reference {
        let (i, j) = choose|i: int, j: int|
            0 <= i < j < n && #[trigger] req.conditioning@[i] is Reference
                && #[trigger] req.conditioning@[j] is Reference;
        two_references_count(req, n, i, j);
    } else if n > 0 {
        let m = (n - 1) as nat;
        references_are_counted(req, m);
        the_first_reference_is_used(req, m);
        if reference_at(req, m) is Some && req.conditioning@[n - 1] is Reference {
            let i = reference_at(req, m)->0;
            assert(req.conditioning@[i] is Reference && req.conditioning@[n - 1] is Reference);
        }
        if references_in(req, m) > 1 {
            let (i, j) = choose|i: int, j: int|
                0 <= i < j < m && #[trigger] req.conditioning@[i] is Reference
                    && #[trigger] req.conditioning@[j] is Reference;
            assert(req.conditioning@[i] is Reference && req.conditioning@[j] is Reference);
        }
    }
}

/// A reference goes by its own strength, and by the request's where it has none. Without a
/// reference, or where neither names a strength, or a strength that is not above zero, a run starts
/// at its first step; otherwise it skips a step or more.
pub proof fn strengths_decide_where_runs_start(req: GenerationRequest, i: int)
    requires
        0 <= i < req.conditioning@.len(),
        req.conditioning@[i] is Reference,
        forall|k: int| 0 <= k < i ==> !(#[trigger] req.conditioning@[k] is Reference),
    ensures
        ({
            let own = req.conditioning@[i]->Reference_strength;
            let strength = if own is Some {
                own
            } else {
                req.strength
            };
            &&& reference_at(req, req.conditioning@.len()) == Some(i)
            &&& strength_of(req, i) == strength
            &&& strength is None ==> first_step(req) == 0
            &&& strength is Some && !(Binary32 { bits: 0 }).less(strength->0) ==> first_step(req)
                == 0
            &&& strength is Some && (Binary32 { bits: 0 }).less(strength->0) ==> first_step(req)
                >= 1
        }),
{
    the_first_reference_is_used(req, req.conditioning@.len());
}

/// Without a reference a run starts at its first step.
pub proof fn runs_without_reference_start_at_zero(req: GenerationRequest)
    requires
        forall|k: int|
            0 <= k < req.conditioning@.len() ==> !(#[trigger] req.conditioning@[k] is Reference),
    ensures
        first_step(req) == 0,
        references_in(req, req.conditioning@.len()) == 0,
{
    the_first_reference_is_used(req, req.conditioning@.len());
}

/// A run first encodes its prompt, and its negative prompt unless it is a few-step run, and last the
/// image it starts from, where there is one.
pub proof fn runs_encode_their_prompts(lightning: bool, from_image: bool)
    ensures
        ({
            let p = preparation(lightning, from_image);
            &&& p.len() == 1 + (if lightning {
                0int
            } else {
                1
            }) + if from_image {
                1int
            } else {
                0
            }
            &&& p[0] == Work::EncodePositive
            &&& !lightning ==> p[1] == Work::EncodeNegative
            &&& from_image ==> p.last() == (Work::EncodeImage { index: 0 })
        }),
{
}

/// What every model of the family can do.
pub proof fn the_family_in_numbers(c: Capabilities, kinds: Seq<ConditioningKind>)
    requires
        family_capabilities(c, kinds),
    ensures
        c.samplers@.len() == 1 && c.samplers@[0]@ == "lightning"@,
        c.min_size == 256 && c.max_size == 2048 && c.max_count == 8,
        c.conditioning@ == kinds,
        c.supports_negative_prompt && c.supports_guidance && c.supports_true_cfg,
        c.supports_lora && c.supports_lokr && c.requires_sigma_shift && c.mac_only,
        !c.supports_kv_cache && c.schedulers@.len() == 0,
        c.supported_quants@ == seq![Quant::Q4, Quant::Q8],
{
}

} // verus!
