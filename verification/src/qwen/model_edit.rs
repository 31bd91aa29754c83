//! Editing of reference images under a text.
use super::generation::{
    num_steps, params_of, resolve_run_params, schedule_steps, steps_of, GenerateError, RunParams,
};
use super::model::{capabilities_with, family_capabilities};
use super::load::{loads, plan_load, LoadError, LoadPlan, LoadSpec, Variant};
use super::request::{
    asks_for_lightning, complaint, suits, validate_request, Conditioning, ConditioningKind,
    GenerationRequest, Image, Modality, ModelDescriptor,
};
use super::run::{RunPlan, Work};
use vstd::prelude::*;

verus! {

/// The name under which the model is registered.
pub const MODEL_ID: &'static str = "qwen_image_edit";

/// The model's identity and capabilities.
pub fn descriptor() -> (r: ModelDescriptor)
    ensures
        r.id@ == "qwen_image_edit"@,
        r.family@ == "qwen-image"@,
        r.backend@ == "mlx"@,
        r.modality == Modality::Image,
        family_capabilities(
            r.capabilities,
            seq![ConditioningKind::Reference, ConditioningKind::MultiReference],
        ),
{
    let mut kinds: Vec<ConditioningKind> = Vec::new();
    kinds.push(ConditioningKind::Reference);
    kinds.push(ConditioningKind::MultiReference);
    assert(kinds@ =~= seq![ConditioningKind::Reference, ConditioningKind::MultiReference]);
    ModelDescriptor {
        id: MODEL_ID,
        family: "qwen-image",
        backend: "mlx",
        modality: Modality::Image,
        capabilities: capabilities_with(kinds),
    }
}

/// Plan the loading of the model: a snapshot directory, in the supported precision.
pub fn load<'a>(spec: &'a LoadSpec) -> (r: Result<LoadPlan<'a>, LoadError>)
    ensures
        loads(Variant::Edit, *spec, r),
{
    plan_load(Variant::Edit, spec)
}

/// The images of one conditioning.
pub open spec fn images_of(c: Conditioning) -> Seq<Image> {
    match c {
        Conditioning::Reference { image, .. } => seq![image],
        Conditioning::MultiReference { images } => images@,
        _ => Seq::empty(),
    }
}

/// The reference images of the first `n` conditionings, in order.
pub open spec fn references(req: GenerationRequest, n: nat) -> Seq<Image>
    decreases n,
{
    if n == 0 {
        Seq::empty()
    } else {
        references(req, (n - 1) as nat) + images_of(req.conditioning@[n - 1])
    }
}

/// The images that references stand for.
pub open spec fn pointed_to(v: Seq<&Image>) -> Seq<Image> {
    Seq::new(v.len(), |i: int| *v[i])
}

/// The reference images of a request, in order.
pub fn reference_images<'a>(req: &'a GenerationRequest) -> (r: Vec<&'a Image>)
    ensures
        pointed_to(r@) == references(*req, req.conditioning@.len()),
{
    let mut r: Vec<&'a Image> = Vec::new();
    let mut i: usize = 0;
    assert(pointed_to(r@) =~= Seq::<Image>::empty());
    while i < req.conditioning.len()
        invariant
            i <= req.conditioning@.len(),
            pointed_to(r@) == references(*req, i as nat),
        decreases req.conditioning@.len() - i,
    {
        match &req.conditioning[i] {
            Conditioning::Reference { image, .. } => {
                let ghost before = r@;
                r.push(image);
                assert(pointed_to(r@) =~= pointed_to(before) + seq![*image]);
            },
            Conditioning::MultiReference { images } => {
                let ghost before = r@;
                let mut j: usize = 0;
                assert(images@.take(0) =~= Seq::<Image>::empty());
                assert(pointed_to(r@) =~= pointed_to(before) + images@.take(0));
                while j < images.len()
                    invariant
                        j <= images@.len(),
                        pointed_to(r@) == pointed_to(before) + images@.take(j as int),
                    decreases images@.len() - j,
                {
                    let ghost step = r@;
                    r.push(&images[j]);
                    assert(pointed_to(r@) =~= pointed_to(step) + seq![images@[j as int]]);
                    assert(images@.take(j + 1) =~= images@.take(j as int) + seq![images@[j as int]]);
                    assert(pointed_to(r@) =~= pointed_to(before) + images@.take(j + 1));
                    j = j + 1;
                }
                assert(images@.take(images@.len() as int) =~= images@);
            },
            _ => {
                assert(pointed_to(r@) + Seq::<Image>::empty() =~= pointed_to(r@));
            },
        }
        i = i + 1;
    }
    r
}

/// What an edit is made of. The first reference speaks to the text encoder; the shape of the last
/// one gives the size at which all of them are encoded.
#[derive(Debug)]
pub struct EditPlan<'a> {
    pub params: RunParams,
    pub positive: &'a str,
    /// The negative prompt, where two predictions are combined.
    pub negative: Option<&'a str>,
    pub references: Vec<&'a Image>,
    pub run: RunPlan,
}

impl<'a> EditPlan<'a> {
    /// The reference that speaks to the text encoder.
    pub fn first(&self) -> (r: &'a Image)
        requires
            self.references@.len() > 0,
        ensures
            *r == *self.references@[0],
    {
        self.references[0]
    }

    /// The reference whose shape counts.
    pub fn last(&self) -> (r: &'a Image)
        requires
            self.references@.len() > 0,
        ensures
            *r == *self.references@.last(),
    {
        self.references[self.references.len() - 1]
    }
}

/// The work before the first image: vision, prompts, then every reference.
pub open spec fn edit_preparation(lightning: bool, n: nat) -> Seq<Work> {
    seq![Work::EncodeVision, Work::EncodePositive] + (if lightning {
        Seq::empty()
    } else {
        seq![Work::EncodeNegative]
    }) + Seq::new(n, |i: int| Work::EncodeImage { index: i as usize })
}

/// The negative prompt of an edit; empty where the request has none.
pub open spec fn edit_negative(req: GenerationRequest) -> Seq<char> {
    match req.negative_prompt {
        Some(p) => p@,
        None => ""@,
    }
}

/// The generator of edits.
#[derive(Debug)]
pub struct QwenImageEdit {
    pub descriptor: ModelDescriptor,
}

impl QwenImageEdit {
    /// Check a request: it also needs a reference image.
    pub fn validate(&self, req: &GenerationRequest) -> (r: Result<(), GenerateError>)
        ensures
            ({
                let caps = self.descriptor.capabilities;
                let n = references(*req, req.conditioning@.len()).len();
                match r {
                    Ok(_) => suits(caps, *req) && n > 0,
                    Err(e) => if !suits(caps, *req) {
                        e matches GenerateError::Request(c) && complaint(caps, *req, c)
                    } else {
                        n == 0 && e == GenerateError::NoReference
                    },
                }
            }),
    {
        if let Err(e) = validate_request(&self.descriptor.capabilities, req) {
            return Err(GenerateError::Request(e));
        }
        let found: Vec<&Image> = reference_images(req);
        assert(pointed_to(found@).len() == found@.len());
        if found.len() == 0 {
            return Err(GenerateError::NoReference);
        }
        Ok(())
    }

    /// Plan the generation that a request asks for. `fallback_seed` serves where it names no seed.
    pub fn generate<'a>(&self, req: &'a GenerationRequest, fallback_seed: u64) -> (r: Result<
        EditPlan<'a>,
        GenerateError,
    >)
        ensures
            ({
                let caps = self.descriptor.capabilities;
                let lightning = asks_for_lightning(*req);
                let images = references(*req, req.conditioning@.len());
                match r {
                    Ok(plan) => {
                        &&& suits(caps, *req)
                        &&& images.len() > 0
                        &&& pointed_to(plan.references@) == images
                        &&& plan.params == params_of(*req, fallback_seed)
                        &&& plan.positive@ == req.prompt@
                        &&& match req.guidance {
                            Some(g) => plan.params.guidance == g,
                            None => plan.params.guidance.bits == 0x4080_0000,
                        }
                        &&& match req.steps {
                            Some(k) => plan.params.steps == k,
                            None => plan.params.steps == if plan.params.is_lightning {
                                8u32
                            } else {
                                4u32
                            },
                        }
                        &&& match req.seed {
                            Some(k) => plan.run.base_seed == k,
                            None => plan.run.base_seed == fallback_seed,
                        }
                        &&& plan.params.is_lightning == (req.sampler is Some && req.sampler->Some_0@
                            == "lightning"@)
                        &&& plan.params.steps >= 1 ==> plan.run.steps == plan.params.steps
                        &&& plan.negative is None <==> plan.params.is_lightning
                        &&& plan.negative is Some ==> match req.negative_prompt {
                            Some(p) => plan.negative->Some_0@ == p@,
                            None => plan.negative->Some_0@ == ""@,
                        }
                        &&& match plan.negative {
                            Some(p) => !lightning && p@ == edit_negative(*req),
                            None => lightning,
                        }
                        &&& plan.run.wf()
                        &&& plan.run.prepare@ == edit_preparation(lightning, images.len())
                        &&& plan.run.count == req.count
                        &&& plan.run.base_seed == params_of(*req, fallback_seed).base_seed
                        &&& plan.run.start == 0
                        &&& plan.run.steps == schedule_steps(steps_of(*req))
                        &&& !plan.run.blend
                    },
                    Err(e) => if !suits(caps, *req) {
                        e matches GenerateError::Request(c) && complaint(caps, *req, c)
                    } else {
                        images.len() == 0 && e == GenerateError::NoReference
                    },
                }
            }),
    {
        if let Err(e) = self.validate(req) {
            return Err(e);
        }
        let images: Vec<&'a Image> = reference_images(req);
        let params: RunParams = resolve_run_params(req, fallback_seed);
        let negative: Option<&'a str> = if params.is_lightning {
            None
        } else {
            match &req.negative_prompt {
                Some(p) => Some(p.as_str()),
                None => Some(""),
            }
        };
        let mut prepare: Vec<Work> = Vec::new();
        prepare.push(Work::EncodeVision);
        prepare.push(Work::EncodePositive);
        if !params.is_lightning {
            prepare.push(Work::EncodeNegative);
        }
        let ghost head = prepare@;
        let mut i: usize = 0;
        while i < images.len()
            invariant
                i <= images@.len(),
                prepare@ == head + Seq::new(
                    i as nat,
                    |k: int| Work::EncodeImage { index: k as usize },
                ),
            decreases images@.len() - i,
        {
            prepare.push(Work::EncodeImage { index: i });
            assert(prepare@ =~= head + Seq::new(
                (i + 1) as nat,
                |k: int| Work::EncodeImage { index: k as usize },
            ));
            i = i + 1;
        }
        assert(pointed_to(images@).len() == images@.len());
        assert(prepare@ =~= edit_preparation(params.is_lightning, images@.len()));
        let steps: u32 = num_steps(params.steps);
        Ok(
            EditPlan {
                params,
                positive: req.prompt.as_str(),
                negative,
                references: images,
                run: RunPlan {
                    prepare,
                    count: req.count,
                    base_seed: params.base_seed,
                    start: 0,
                    steps,
                    blend: false,
                },
            },
        )
    }
}

/// The grid of one image of the vision tower: frames, rows and columns.
pub type VisionGrid = (i32, i32, i32);

/// Read the grids off a list of numbers, three each.
pub fn vision_grids(values: &[i32]) -> (r: Vec<VisionGrid>)
    requires
        values@.len() % 3 == 0,
    ensures
        r@.len() == values@.len() / 3,
        forall|i: int|
            0 <= i < r@.len() ==> #[trigger] r@[i] == (
                values@[3 * i],
                values@[3 * i + 1],
                values@[3 * i + 2],
            ),
{
    let n: usize = values.len() / 3;
    let mut r: Vec<VisionGrid> = Vec::new();
    let mut i: usize = 0;
    while i < n
        invariant
            i <= n,
            3 * n == values@.len(),
            values@.len() <= usize::MAX,
            r@.len() == i,
            forall|k: int|
                0 <= k < i ==> #[trigger] r@[k] == (
                    values@[3 * k],
                    values@[3 * k + 1],
                    values@[3 * k + 2],
                ),
        decreases n - i,
    {
        r.push((values[3 * i], values[3 * i + 1], values[3 * i + 2]));
        i = i + 1;
    }
    r
}

/// The images of an edit are those of its references in the order of the request: each reference
/// adds its image and each list of references all of its images, behind those of the conditionings
/// before it.
pub proof fn reference_images_are_in_order(req: GenerationRequest, n: nat, i: int)
    requires
        0 <= i < n <= req.conditioning@.len(),
    ensures
        ({
            let all = references(req, n);
            let at = references(req, i as nat).len();
            match req.conditioning@[i] {
                Conditioning::Reference { image, .. } => at < all.len() && all[at as int] == image,
                Conditioning::MultiReference { images } => at + images@.len() <= all.len()
                    && forall|k: int|
                    0 <= k < images@.len() ==> all[at + k] == #[trigger] images@[k],
                _ => true,
            }
        }),
        references(req, n).len() >= references(req, i as nat).len(),
        references(req, (i + 1) as nat).len() == references(req, i as nat).len() + (
        match req.conditioning@[i] {
            Conditioning::Reference { .. } => 1nat,
            Conditioning::MultiReference { images } => images@.len(),
            _ => 0nat,
        }),
    decreases n,
{
    if i < n - 1 {
        reference_images_are_in_order(req, (n - 1) as nat, i);
    }
}

/// An edit has an image exactly where its request has a reference or a list of references that is
/// not empty.
pub proof fn edits_need_an_image(req: GenerationRequest, n: nat)
    requires
        n <= req.conditioning@.len(),
    ensures
        references(req, n).len() > 0 <==> exists|i: int|
            0 <= i < n && match #[trigger] req.conditioning@[i] {
                Conditioning::Reference { .. } => true,
                Conditioning::MultiReference { images } => images@.len() > 0,
                _ => false,
            },
    decreases n,
{
    if n > 0 {
        let m = (n - 1) as nat;
        edits_need_an_image(req, m);
        reference_images_are_in_order(req, n, n - 1);
        let c = req.conditioning@;
        if references(req, m).len() > 0 {
            let i = choose|i: int|
                0 <= i < m && match #[trigger] req.conditioning@[i] {
                    Conditioning::Reference { .. } => true,
                    Conditioning::MultiReference { images } => images@.len() > 0,
                    _ => false,
                };
            assert(c[i] == c[i]);
        }
        assert(c[n - 1] == c[n - 1]);
    }
}

/// An edit first encodes what it sees, its prompt, and its negative prompt unless it is a few-step
/// run; the images follow in their order.
pub proof fn edits_encode_their_images(lightning: bool, n: nat, i: int)
    requires
        0 <= i < n <= usize::MAX,
    ensures
        ({
            let p = edit_preparation(lightning, n);
            let first: int = if lightning {
                2
            } else {
                3
            };
            &&& p.len() == first + n
            &&& p[0] == Work::EncodeVision
            &&& p[1] == Work::EncodePositive
            &&& !lightning ==> p[2] == Work::EncodeNegative
            &&& p[first + i] == (Work::EncodeImage { index: i as usize })
        }),
{
}

/// The negative prompt of an edit is the one that the request names, blank or not, and empty only
/// where it names none.
pub proof fn edits_use_their_negative_prompt(req: GenerationRequest)
    ensures
        req.negative_prompt is Some ==> edit_negative(req) == req.negative_prompt->Some_0@,
        req.negative_prompt is None ==> edit_negative(req).len() == 0,
{
    reveal_strlit("");
}

} // verus!
