//! What every generation settles before it runs: steps, guidance, seed, prompts, and what can be
//! wrong with a request beyond the general rules.
use super::load::Variant;
use super::request::{asks_for_lightning, is_lightning, ControlKind, GenerationRequest, RequestError};
use crate::binary32::Binary32;
use crate::text::{blank, is_blank, is_white};
use vstd::prelude::*;
use vstd::string::{StrSliceExecFns, StringExecFns};

verus! {

/// The steps of a production run, where the request does not say.
pub const DEFAULT_STEPS: u32 = 4;

/// The steps of a few-step run, where the request does not say.
pub const LIGHTNING_DEFAULT_STEPS: u32 = 8;

/// The bit pattern of the guidance scale four, which applies where the request does not say.
pub const DEFAULT_GUIDANCE: u32 = 0x4080_0000;

/// What stands for a negative prompt that says nothing.
pub const NEGATIVE_FALLBACK: &'static str = " ";

/// What a run goes by.
#[derive(Clone, Copy, Debug, PartialEq, Eq, Structural)]
pub struct RunParams {
    pub is_lightning: bool,
    pub steps: u32,
    pub guidance: Binary32,
    pub base_seed: u64,
}

/// The steps that a request asks for.
pub open spec fn steps_of(req: GenerationRequest) -> u32 {
    match req.steps {
        Some(steps) => steps,
        None => if asks_for_lightning(req) {
            LIGHTNING_DEFAULT_STEPS
        } else {
            DEFAULT_STEPS
        },
    }
}

/// The steps that a schedule has: at least one.
pub open spec fn schedule_steps(steps: u32) -> u32 {
    if steps == 0 {
        1
    } else {
        steps
    }
}

/// The steps that a schedule has.
pub fn num_steps(steps: u32) -> (r: u32)
    ensures
        r == schedule_steps(steps),
        1 <= r,
        1 <= steps ==> r == steps,
{
    if steps == 0 {
        1
    } else {
        steps
    }
}

/// What a request goes by, with the seed that is taken where it names none.
pub open spec fn params_of(req: GenerationRequest, fallback_seed: u64) -> RunParams {
    RunParams {
        is_lightning: asks_for_lightning(req),
        steps: steps_of(req),
        guidance: match req.guidance {
            Some(g) => g,
            None => Binary32 { bits: DEFAULT_GUIDANCE },
        },
        base_seed: match req.seed {
            Some(s) => s,
            None => fallback_seed,
        },
    }
}

/// Settle what a run goes by.
pub fn resolve_run_params(req: &GenerationRequest, fallback_seed: u64) -> (r: RunParams)
    ensures
        r == params_of(*req, fallback_seed),
        match req.guidance {
            Some(g) => r.guidance == g,
            None => r.guidance.bits == 0x4080_0000,
        },
        match req.steps {
            Some(n) => r.steps == n,
            None => r.steps == if r.is_lightning {
                8u32
            } else {
                4u32
            },
        },
        match req.seed {
            Some(n) => r.base_seed == n,
            None => r.base_seed == fallback_seed,
        },
        r.is_lightning == (req.sampler is Some && req.sampler->Some_0@ == "lightning"@),
{
    let lightning: bool = is_lightning(req);
    let default_steps: u32 = if lightning {
        LIGHTNING_DEFAULT_STEPS
    } else {
        DEFAULT_STEPS
    };
    let steps: u32 = match req.steps {
        Some(s) => s,
        None => default_steps,
    };
    let guidance: Binary32 = match req.guidance {
        Some(g) => g,
        None => Binary32 { bits: DEFAULT_GUIDANCE },
    };
    let base_seed: u64 = match req.seed {
        Some(s) => s,
        None => fallback_seed,
    };
    RunParams { is_lightning: lightning, steps, guidance, base_seed }
}

/// The negative prompt of a request, or a space where it says nothing.
pub open spec fn negative_text(req: GenerationRequest) -> Seq<char> {
    match req.negative_prompt {
        Some(p) => if blank(p@) {
            NEGATIVE_FALLBACK@
        } else {
            p@
        },
        None => NEGATIVE_FALLBACK@,
    }
}

/// The negative prompt, or a space where it says nothing.
pub fn negative_or_fallback<'a>(req: &'a GenerationRequest) -> (r: &'a str)
    ensures
        r@ == negative_text(*req),
        match req.negative_prompt {
            Some(p) => r@ == p@ || r@ == " "@,
            None => r@ == " "@,
        },
{
    match &req.negative_prompt {
        Some(p) => {
            if is_blank(p.as_str()) {
                NEGATIVE_FALLBACK
            } else {
                p.as_str()
            }
        },
        None => NEGATIVE_FALLBACK,
    }
}

/// Why nothing can be generated.
#[derive(Debug)]
pub enum GenerateError {
    /// The request does not suit the model.
    Request(RequestError),
    /// More than one image to start from.
    MultipleReferences,
    /// A few-step run that starts from an image.
    LightningFromImage,
    /// A control image of another kind than a pose.
    NotAPose { kind: ControlKind },
    /// More than one control image.
    MultipleControls,
    /// No control image.
    NoControl,
    /// No reference image.
    NoReference,
    /// A prompt without a token.
    EmptyPrompt { variant: Variant },
    /// The run was cancelled.
    Cancelled,
}

impl ControlKind {
    /// The name of a kind.
    pub open spec fn named(self) -> Seq<char> {
        match self {
            ControlKind::Pose => "Pose"@,
            ControlKind::Canny => "Canny"@,
            ControlKind::Depth => "Depth"@,
            ControlKind::Other => "Other"@,
        }
    }

    /// The name of this kind.
    pub fn name(&self) -> (r: &'static str)
        ensures
            r@ == self.named(),
    {
        match self {
            ControlKind::Pose => "Pose",
            ControlKind::Canny => "Canny",
            ControlKind::Depth => "Depth",
            ControlKind::Other => "Other",
        }
    }
}

impl GenerateError {
    /// The complaint in words.
    pub open spec fn text(self) -> Seq<char> {
        match self {
            GenerateError::Request(e) => e.text(),
            GenerateError::MultipleReferences =>
            "qwen_image: multiple reference images are not supported (single img2img init only)"@,
            GenerateError::LightningFromImage =>
            "qwen_image: the lightning sampler is txt2img-only (no img2img init image)"@,
            GenerateError::NotAPose { kind } =>
            "qwen_image_control v1 supports pose control only, got "@ + kind.named(),
            GenerateError::MultipleControls =>
            "qwen_image_control: a single control image is supported"@,
            GenerateError::NoControl =>
            "qwen_image_control requires a Control (pose skeleton) conditioning"@,
            GenerateError::NoReference =>
            "qwen_image_edit requires a Reference or MultiReference conditioning image"@,
            GenerateError::EmptyPrompt { variant } => match variant {
                Variant::Text => "qwen_image: empty prompt"@,
                Variant::Control => "qwen_image_control: empty prompt"@,
                Variant::Edit => "qwen_image_edit: empty prompt"@,
            },
            GenerateError::Cancelled => "generation cancelled"@,
        }
    }

    /// This complaint in words.
    pub fn message(&self) -> (r: String)
        ensures
            r@ == self.text(),
    {
        match self {
            GenerateError::Request(e) => e.message(),
            GenerateError::MultipleReferences =>
            "qwen_image: multiple reference images are not supported (single img2img init only)".to_owned(),
            GenerateError::LightningFromImage =>
            "qwen_image: the lightning sampler is txt2img-only (no img2img init image)".to_owned(),
            GenerateError::NotAPose { kind } => {
                let mut r: String =
                    "qwen_image_control v1 supports pose control only, got ".to_owned();
                r.append(kind.name());
                r
            },
            GenerateError::MultipleControls =>
            "qwen_image_control: a single control image is supported".to_owned(),
            GenerateError::NoControl =>
            "qwen_image_control requires a Control (pose skeleton) conditioning".to_owned(),
            GenerateError::NoReference =>
            "qwen_image_edit requires a Reference or MultiReference conditioning image".to_owned(),
            GenerateError::EmptyPrompt { variant } => match variant {
                Variant::Text => "qwen_image: empty prompt".to_owned(),
                Variant::Control => "qwen_image_control: empty prompt".to_owned(),
                Variant::Edit => "qwen_image_edit: empty prompt".to_owned(),
            },
            GenerateError::Cancelled => "generation cancelled".to_owned(),
        }
    }
}

/// A prompt has a token.
pub fn check_prompt(variant: Variant, tokens: usize) -> (r: Result<(), GenerateError>)
    ensures
        match r {
            Ok(_) => tokens > 0,
            Err(e) => tokens == 0 && e == (GenerateError::EmptyPrompt { variant }),
        },
{
    if tokens == 0 {
        Err(GenerateError::EmptyPrompt { variant })
    } else {
        Ok(())
    }
}

/// What a request names is what its run goes by: guidance, steps and seed. Where it names none,
/// guidance is four, a production run has four steps and a few-step run eight, and the seed is the
/// one at hand.
pub proof fn named_settings_are_used(req: GenerationRequest, fallback_seed: u64)
    ensures
        ({
            let p = params_of(req, fallback_seed);
            let lightning = req.sampler is Some && req.sampler->Some_0@ == "lightning"@;
            &&& p.is_lightning == lightning
            &&& req.guidance is Some ==> p.guidance == req.guidance->Some_0
            &&& req.guidance is None ==> p.guidance.bits == 0x4080_0000
            &&& req.steps is Some ==> p.steps == req.steps->Some_0
            &&& req.steps is None && lightning ==> p.steps == 8
            &&& req.steps is None && !lightning ==> p.steps == 4
            &&& req.seed is Some ==> p.base_seed == req.seed->Some_0
            &&& req.seed is None ==> p.base_seed == fallback_seed
            &&& steps_of(req) == p.steps
        }),
{
}

/// Two requests that name the same settings go by the same ones, whatever else they ask for.
pub proof fn settings_depend_on_nothing_else(
    a: GenerationRequest,
    b: GenerationRequest,
    fallback_seed: u64,
)
    requires
        a.guidance == b.guidance,
        a.steps == b.steps,
        a.seed == b.seed,
        (a.sampler is Some && a.sampler->Some_0@ == "lightning"@) == (b.sampler is Some
            && b.sampler->Some_0@ == "lightning"@),
    ensures
        params_of(a, fallback_seed) == params_of(b, fallback_seed),
{
}

/// A negative prompt with a visible character is used as it stands; one that is blank, or none,
/// becomes a single space.
pub proof fn negative_prompts_are_used(req: GenerationRequest)
    ensures
        req.negative_prompt is None ==> negative_text(req) == " "@,
        req.negative_prompt is Some && (exists|i: int|
            0 <= i < req.negative_prompt->Some_0@.len() && !is_white(
                #[trigger] req.negative_prompt->Some_0@[i],
            )) ==> negative_text(req) == req.negative_prompt->Some_0@,
        req.negative_prompt is Some && (forall|i: int|
            0 <= i < req.negative_prompt->Some_0@.len() ==> is_white(
                #[trigger] req.negative_prompt->Some_0@[i],
            )) ==> negative_text(req) == " "@,
{
}

/// A schedule has the steps that were asked for, and one where none were.
pub proof fn schedules_have_a_step(steps: u32)
    ensures
        steps > 0 ==> schedule_steps(steps) == steps,
        steps == 0 ==> schedule_steps(steps) == 1,
{
}

/// What is said where nothing can be generated.
pub proof fn refusals_in_words(kind: ControlKind)
    ensures
        GenerateError::MultipleReferences.text()
            == "qwen_image: multiple reference images are not supported (single img2img init only)"@,
        GenerateError::LightningFromImage.text()
            == "qwen_image: the lightning sampler is txt2img-only (no img2img init image)"@,
        (GenerateError::NotAPose { kind }).text()
            == "qwen_image_control v1 supports pose control only, got "@ + (match kind {
            ControlKind::Pose => "Pose"@,
            ControlKind::Canny => "Canny"@,
            ControlKind::Depth => "Depth"@,
            ControlKind::Other => "Other"@,
        }),
        GenerateError::MultipleControls.text()
            == "qwen_image_control: a single control image is supported"@,
        GenerateError::NoControl.text()
            == "qwen_image_control requires a Control (pose skeleton) conditioning"@,
        GenerateError::NoReference.text()
            == "qwen_image_edit requires a Reference or MultiReference conditioning image"@,
        (GenerateError::EmptyPrompt { variant: Variant::Text }).text()
            == "qwen_image: empty prompt"@,
        (GenerateError::EmptyPrompt { variant: Variant::Control }).text()
            == "qwen_image_control: empty prompt"@,
        GenerateError::Cancelled.text() == "generation cancelled"@,
{
}

} // verus!
