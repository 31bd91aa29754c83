//! What a model is loaded from, and in which order its parts are made.
use super::request::Quant;
use vstd::prelude::*;
use vstd::string::StrSliceExecFns;

verus! {

/// Where weights come from.
#[derive(Debug, PartialEq, Eq)]
pub enum WeightsSource {
    /// A snapshot directory.
    Dir(String),
    /// A single file.
    File(String),
}

/// The precision that weights are held in.
#[derive(Clone, Copy, Debug, PartialEq, Eq, Structural)]
pub enum Precision {
    Bf16,
    Fp16,
    Fp32,
}

/// An adapter to apply to the transformer.
#[derive(Debug, PartialEq, Eq)]
pub struct AdapterSpec {
    pub path: String,
    pub scale_bits: u32,
}

/// What to load, and how.
#[derive(Debug, PartialEq, Eq)]
pub struct LoadSpec {
    pub weights: WeightsSource,
    pub control: Option<WeightsSource>,
    pub precision: Precision,
    pub quantize: Option<Quant>,
    pub adapters: Vec<AdapterSpec>,
}

impl LoadSpec {
    /// Load from a source: dense, in the default precision, without adapters.
    pub fn new(weights: WeightsSource) -> (r: LoadSpec)
        ensures
            r.weights == weights,
            r.control is None,
            r.precision == Precision::Bf16,
            r.quantize is None,
            r.adapters@.len() == 0,
    {
        LoadSpec {
            weights,
            control: None,
            precision: Precision::Bf16,
            quantize: None,
            adapters: Vec::new(),
        }
    }

    /// The same, quantized.
    pub fn with_quant(self, quant: Quant) -> (r: LoadSpec)
        ensures
            r.weights == self.weights,
            r.control == self.control,
            r.precision == self.precision,
            r.quantize == Some(quant),
            r.adapters == self.adapters,
    {
        LoadSpec {
            weights: self.weights,
            control: self.control,
            precision: self.precision,
            quantize: Some(quant),
            adapters: self.adapters,
        }
    }

    /// The same, with a control branch.
    pub fn with_control(self, control: WeightsSource) -> (r: LoadSpec)
        ensures
            r.weights == self.weights,
            r.control == Some(control),
            r.precision == self.precision,
            r.quantize == self.quantize,
            r.adapters == self.adapters,
    {
        LoadSpec {
            weights: self.weights,
            control: Some(control),
            precision: self.precision,
            quantize: self.quantize,
            adapters: self.adapters,
        }
    }
}

/// The models of the family.
#[derive(Clone, Copy, Debug, PartialEq, Eq, Structural)]
pub enum Variant {
    Text,
    Control,
    Edit,
}

/// Why a model cannot be loaded.
#[derive(Clone, Copy, Debug, PartialEq, Eq, Structural)]
pub enum LoadError {
    /// Another precision than the supported one.
    Precision { variant: Variant },
    /// The weights are not a snapshot directory.
    NotADirectory { variant: Variant },
    /// The weights of the control branch are missing.
    NoControlWeights,
}

impl LoadError {
    /// The complaint in words.
    pub open spec fn text(self) -> Seq<char> {
        match self {
            LoadError::Precision { variant } => match variant {
                Variant::Text =>
                "qwen_image: only dense bf16 is wired in the Rust port (drop the precision override)"@,
                Variant::Control =>
                "qwen_image_control: only dense bf16 is wired in the Rust port (drop the precision override)"@,
                Variant::Edit =>
                "qwen_image_edit: only dense bf16 is wired in the Rust port (drop the precision override)"@,
            },
            LoadError::NotADirectory { variant } => match variant {
                Variant::Text =>
                "qwen_image expects a snapshot directory (tokenizer/ text_encoder/ transformer/ vae/), not a single .safetensors file"@,
                Variant::Control =>
                "qwen_image_control expects a base snapshot directory (tokenizer/ text_encoder/ transformer/ vae/) as `weights`, not a single .safetensors file"@,
                Variant::Edit =>
                "qwen_image_edit expects a snapshot directory (tokenizer/ text_encoder/ transformer/ vae/), not a single .safetensors file"@,
            },
            LoadError::NoControlWeights =>
            "qwen_image_control requires the InstantX Qwen-Image-ControlNet-Union weights — set LoadSpec::control (e.g. with_control(WeightsSource::File(...)))"@,
        }
    }

    /// This complaint in words.
    pub fn message(&self) -> (r: String)
        ensures
            r@ == self.text(),
    {
        let words: &'static str = match self {
            LoadError::Precision { variant } => match variant {
                Variant::Text =>
                "qwen_image: only dense bf16 is wired in the Rust port (drop the precision override)",
                Variant::Control =>
                "qwen_image_control: only dense bf16 is wired in the Rust port (drop the precision override)",
                Variant::Edit =>
                "qwen_image_edit: only dense bf16 is wired in the Rust port (drop the precision override)",
            },
            LoadError::NotADirectory { variant } => match variant {
                Variant::Text =>
                "qwen_image expects a snapshot directory (tokenizer/ text_encoder/ transformer/ vae/), not a single .safetensors file",
                Variant::Control =>
                "qwen_image_control expects a base snapshot directory (tokenizer/ text_encoder/ transformer/ vae/) as `weights`, not a single .safetensors file",
                Variant::Edit =>
                "qwen_image_edit expects a snapshot directory (tokenizer/ text_encoder/ transformer/ vae/), not a single .safetensors file",
            },
            LoadError::NoControlWeights =>
            "qwen_image_control requires the InstantX Qwen-Image-ControlNet-Union weights — set LoadSpec::control (e.g. with_control(WeightsSource::File(...)))",
        };
        words.to_owned()
    }
}

/// One part of loading.
#[derive(Clone, Copy, Debug, PartialEq, Eq, Structural)]
pub enum LoadStep {
    /// Load the transformer.
    Transformer,
    /// Load the control branch.
    Controlnet,
    /// Quantize the transformer.
    QuantizeTransformer { bits: i32 },
    /// Quantize the control branch.
    QuantizeControlnet { bits: i32 },
    /// Apply the adapters to the transformer.
    ApplyAdapters,
    /// Load the tokenizer.
    Tokenizer,
    /// Load the text encoder.
    TextEncoder,
    /// Load the vision-language encoder.
    VisionLanguageEncoder,
    /// Load the autoencoder.
    Vae,
}

/// How a model is loaded.
#[derive(Debug)]
pub struct LoadPlan<'a> {
    /// The snapshot directory.
    pub root: &'a str,
    /// Where the control branch comes from.
    pub control: Option<&'a WeightsSource>,
    pub steps: Vec<LoadStep>,
}

/// The bits that a quantization leaves.
pub open spec fn bits_of(q: Quant) -> i32 {
    match q {
        Quant::Q4 => 4,
        Quant::Q8 => 8,
    }
}

/// The order of loading: the transformers dense, then quantized, then the adapters over the base;
/// encoders and autoencoder stay dense.
pub open spec fn load_steps(variant: Variant, spec: LoadSpec) -> Seq<LoadStep> {
    let control = variant == Variant::Control;
    seq![LoadStep::Transformer] + (if control {
        seq![LoadStep::Controlnet]
    } else {
        Seq::empty()
    }) + (match spec.quantize {
        Some(q) => seq![LoadStep::QuantizeTransformer { bits: bits_of(q) }] + (if control {
            seq![LoadStep::QuantizeControlnet { bits: bits_of(q) }]
        } else {
            Seq::empty()
        }),
        None => Seq::empty(),
    }) + (if spec.adapters@.len() > 0 {
        seq![LoadStep::ApplyAdapters]
    } else {
        Seq::empty()
    }) + seq![
        LoadStep::Tokenizer,
        if variant == Variant::Edit {
            LoadStep::VisionLanguageEncoder
        } else {
            LoadStep::TextEncoder
        },
        LoadStep::Vae,
    ]
}

/// What loading a variant comes to.
pub open spec fn loads(variant: Variant, spec: LoadSpec, r: Result<LoadPlan, LoadError>) -> bool {
    let wanted = variant == Variant::Control;
    match r {
        Ok(plan) => {
            &&& spec.precision == Precision::Bf16
            &&& spec.weights matches WeightsSource::Dir(root)
            &&& plan.root@ == root@
            &&& wanted ==> spec.control is Some
            &&& match plan.control {
                Some(c) => wanted && spec.control == Some(*c),
                None => !wanted,
            }
            &&& plan.steps@ == load_steps(variant, spec)
        },
        Err(e) => if spec.precision != Precision::Bf16 {
            e == (LoadError::Precision { variant })
        } else if spec.weights is File {
            e == (LoadError::NotADirectory { variant })
        } else {
            wanted && spec.control is None && e == LoadError::NoControlWeights
        },
    }
}

/// Plan the loading of a variant.
pub fn plan_load<'a>(variant: Variant, spec: &'a LoadSpec) -> (r: Result<LoadPlan<'a>, LoadError>)
    ensures
        loads(variant, *spec, r),
{
    if spec.precision != Precision::Bf16 {
        return Err(LoadError::Precision { variant });
    }
    let root: &'a str = match &spec.weights {
        WeightsSource::Dir(p) => p.as_str(),
        WeightsSource::File(_) => {
            return Err(LoadError::NotADirectory { variant });
        },
    };
    let wanted: bool = variant == Variant::Control;
    let control: Option<&'a WeightsSource> = if wanted {
        match &spec.control {
            Some(c) => Some(c),
            None => {
                return Err(LoadError::NoControlWeights);
            },
        }
    } else {
        None
    };
    let mut steps: Vec<LoadStep> = Vec::new();
    steps.push(LoadStep::Transformer);
    if wanted {
        steps.push(LoadStep::Controlnet);
    }
    if let Some(q) = spec.quantize {
        let bits: i32 = q.bits();
        steps.push(LoadStep::QuantizeTransformer { bits });
        if wanted {
            steps.push(LoadStep::QuantizeControlnet { bits });
        }
    }
    if spec.adapters.len() > 0 {
        steps.push(LoadStep::ApplyAdapters);
    }
    steps.push(LoadStep::Tokenizer);
    if variant == Variant::Edit {
        steps.push(LoadStep::VisionLanguageEncoder);
    } else {
        steps.push(LoadStep::TextEncoder);
    }
    steps.push(LoadStep::Vae);
    assert(steps@ =~= load_steps(variant, *spec));
    Ok(LoadPlan { root, control, steps })
}

/// Quantization comes after every dense load of a transformer and before the adapters, and only
/// the transformers are quantized.
pub proof fn quantization_follows_loading(variant: Variant, spec: LoadSpec, i: int, j: int)
    requires
        0 <= i < load_steps(variant, spec).len(),
        0 <= j < load_steps(variant, spec).len(),
        load_steps(variant, spec)[i] is QuantizeTransformer
            || load_steps(variant, spec)[i] is QuantizeControlnet,
    ensures
        load_steps(variant, spec)[j] is Transformer || load_steps(variant, spec)[j] is Controlnet
            ==> j < i,
        load_steps(variant, spec)[j] is ApplyAdapters ==> i < j,
        spec.quantize is Some,
{
}

/// What loading consists of: a transformer always, a control network for the control model only,
/// each quantised to four or eight bits where that is asked for, adapters where there are any, a
/// tokenizer, the text encoder, or for edits the one that also sees, and the autoencoder.
pub proof fn every_part_is_loaded(variant: Variant, spec: LoadSpec)
    ensures
        ({
            let s = load_steps(variant, spec);
            let n = s.len();
            let four = spec.quantize == Some(Quant::Q4);
            let eight = spec.quantize == Some(Quant::Q8);
            let control = variant == Variant::Control;
            &&& n >= 4
            &&& s[0] == LoadStep::Transformer
            &&& s.contains(LoadStep::Controlnet) <==> control
            &&& s.contains(LoadStep::QuantizeTransformer { bits: 4 }) <==> four
            &&& s.contains(LoadStep::QuantizeTransformer { bits: 8 }) <==> eight
            &&& s.contains(LoadStep::QuantizeControlnet { bits: 4 }) <==> four && control
            &&& s.contains(LoadStep::QuantizeControlnet { bits: 8 }) <==> eight && control
            &&& s.contains(LoadStep::ApplyAdapters) <==> spec.adapters@.len() > 0
            &&& s[n - 3] == LoadStep::Tokenizer
            &&& variant == Variant::Edit ==> s[n - 2] == LoadStep::VisionLanguageEncoder
            &&& variant != Variant::Edit ==> s[n - 2] == LoadStep::TextEncoder
            &&& s[n - 1] == LoadStep::Vae
            &&& n == 4 + (if control {
                1int
            } else {
                0
            }) + (if spec.quantize is None {
                0int
            } else if control {
                2
            } else {
                1
            }) + if spec.adapters@.len() > 0 {
                1int
            } else {
                0
            }
        }),
{
    let s = load_steps(variant, spec);
    let control = variant == Variant::Control;
    let at = if control {
        2int
    } else {
        1int
    };
    if control {
        assert(s[1] == LoadStep::Controlnet);
    }
    if spec.quantize is Some {
        let bits = bits_of(spec.quantize->0);
        assert(s[at] == (LoadStep::QuantizeTransformer { bits }));
        if control {
            assert(s[at + 1] == (LoadStep::QuantizeControlnet { bits }));
        }
    }
    if spec.adapters@.len() > 0 {
        assert(s[s.len() - 4] == LoadStep::ApplyAdapters);
    }
}

/// A model loads exactly where it is asked for in the dense format, from a directory, and, if it is
/// the control model, with control weights. Otherwise the first of these that fails is named.
pub proof fn what_can_be_loaded(variant: Variant, spec: LoadSpec, r: Result<LoadPlan, LoadError>)
    requires
        loads(variant, spec, r),
    ensures
        r is Ok <==> spec.precision == Precision::Bf16 && spec.weights is Dir && (variant
            == Variant::Control ==> spec.control is Some),
        spec.precision != Precision::Bf16 ==> r == Err::<LoadPlan, LoadError>(
            LoadError::Precision { variant },
        ),
        spec.precision == Precision::Bf16 && spec.weights is File ==> r == Err::<
            LoadPlan,
            LoadError,
        >(LoadError::NotADirectory { variant }),
        r is Ok ==> r->Ok_0.root@ == spec.weights->Dir_0@ && (r->Ok_0.control is Some <==> variant
            == Variant::Control),
        r is Ok && variant == Variant::Control ==> *r->Ok_0.control->0 == spec.control->0,
{
}

} // verus!
