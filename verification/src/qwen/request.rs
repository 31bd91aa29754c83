//! What a caller asks for, what a model offers, and when the two agree.
use crate::binary32::Binary32;
use crate::text::{decimal, digits, same_text};
use vstd::prelude::*;
use vstd::string::{StrSliceExecFns, StringExecFns};

verus! {

/// The sampler name that selects the few-step schedule.
pub const LIGHTNING_SAMPLER: &'static str = "lightning";

/// Image sides are multiples of this: an eighth per side in latent space, in patches of two.
pub const SIDE_MULTIPLE: u32 = 16;

/// The fewest steps of the production schedule.
pub const MIN_PRODUCTION_STEPS: u32 = 2;

/// An image of eight-bit red, green and blue samples, row by row.
#[derive(Debug, PartialEq, Eq, Default)]
pub struct Image {
    pub width: u32,
    pub height: u32,
    pub pixels: Vec<u8>,
}

/// What a control image shows.
#[derive(Clone, Copy, Debug, PartialEq, Eq, Structural)]
pub enum ControlKind {
    Pose,
    Canny,
    Depth,
    Other,
}

/// The kinds of conditioning.
#[derive(Clone, Copy, Debug, PartialEq, Eq, Structural)]
pub enum ConditioningKind {
    Reference,
    MultiReference,
    Control,
    Depth,
}

/// An image, or several, that the result should follow.
#[derive(Debug, PartialEq, Eq)]
pub enum Conditioning {
    Reference { image: Image, strength: Option<Binary32> },
    MultiReference { images: Vec<Image> },
    Control { image: Image, kind: ControlKind, scale: Binary32 },
    Depth { image: Image },
}

impl Conditioning {
    /// The kind of a conditioning.
    pub open spec fn kind_of(self) -> ConditioningKind {
        match self {
            Conditioning::Reference { .. } => ConditioningKind::Reference,
            Conditioning::MultiReference { .. } => ConditioningKind::MultiReference,
            Conditioning::Control { .. } => ConditioningKind::Control,
            Conditioning::Depth { .. } => ConditioningKind::Depth,
        }
    }

    /// The kind of this conditioning.
    pub fn kind(&self) -> (r: ConditioningKind)
        ensures
            r == self.kind_of(),
    {
        match self {
            Conditioning::Reference { .. } => ConditioningKind::Reference,
            Conditioning::MultiReference { .. } => ConditioningKind::MultiReference,
            Conditioning::Control { .. } => ConditioningKind::Control,
            Conditioning::Depth { .. } => ConditioningKind::Depth,
        }
    }
}

/// A request for images.
#[derive(Debug, PartialEq, Eq)]
pub struct GenerationRequest {
    pub prompt: String,
    pub negative_prompt: Option<String>,
    pub width: u32,
    pub height: u32,
    pub count: u32,
    pub seed: Option<u64>,
    pub steps: Option<u32>,
    pub guidance: Option<Binary32>,
    /// How far an image-to-image run keeps to its image, where the image does not say.
    pub strength: Option<Binary32>,
    pub sampler: Option<String>,
    pub conditioning: Vec<Conditioning>,
}

impl Default for GenerationRequest {
    fn default() -> (r: GenerationRequest)
        ensures
            r.prompt@ == Seq::<char>::empty(),
            r.width == 1024,
            r.height == 1024,
            r.count == 1,
            r.negative_prompt is None,
            r.seed is None,
            r.steps is None,
            r.guidance is None,
            r.strength is None,
            r.sampler is None,
            r.conditioning@ == Seq::<Conditioning>::empty(),
    {
        proof {
            reveal_strlit("");
        }
        let prompt: String = "".to_owned();
        assert(prompt@ =~= Seq::<char>::empty());
        GenerationRequest {
            prompt,
            negative_prompt: None,
            width: 1024,
            height: 1024,
            count: 1,
            seed: None,
            steps: None,
            guidance: None,
            strength: None,
            sampler: None,
            conditioning: Vec::new(),
        }
    }
}

/// Bits per weight after quantization.
#[derive(Clone, Copy, Debug, PartialEq, Eq, Structural)]
pub enum Quant {
    Q4,
    Q8,
}

impl Quant {
    /// Bits per weight.
    pub fn bits(&self) -> (r: i32)
        ensures
            r == if *self == Quant::Q4 {
                4int
            } else {
                8
            },
    {
        match self {
            Quant::Q4 => 4,
            Quant::Q8 => 8,
        }
    }
}

/// What a model produces.
#[derive(Clone, Copy, Debug, PartialEq, Eq, Structural)]
pub enum Modality {
    Image,
    Video,
}

/// What a model can do.
#[derive(Debug)]
pub struct Capabilities {
    pub supports_negative_prompt: bool,
    pub supports_guidance: bool,
    pub supports_true_cfg: bool,
    pub conditioning: Vec<ConditioningKind>,
    pub supports_lora: bool,
    pub supports_lokr: bool,
    pub samplers: Vec<&'static str>,
    pub schedulers: Vec<&'static str>,
    pub min_size: u32,
    pub max_size: u32,
    pub max_count: u32,
    pub mac_only: bool,
    pub supported_quants: Vec<Quant>,
    pub supports_kv_cache: bool,
    pub requires_sigma_shift: bool,
}

/// The name of a sampler that is among those offered.
pub open spec fn offers(samplers: Seq<&'static str>, name: Seq<char>) -> bool {
    exists|i: int| 0 <= i < samplers.len() && (#[trigger] samplers[i])@ == name
}

impl Capabilities {
    /// Whether a kind of conditioning is accepted.
    pub fn accepts(&self, kind: ConditioningKind) -> (r: bool)
        ensures
            r == self.conditioning@.contains(kind),
    {
        let mut i: usize = 0;
        while i < self.conditioning.len()
            invariant
                i <= self.conditioning@.len(),
                forall|j: int| 0 <= j < i ==> self.conditioning@[j] != kind,
            decreases self.conditioning@.len() - i,
        {
            if self.conditioning[i] == kind {
                return true;
            }
            i = i + 1;
        }
        false
    }

    /// Whether a sampler is offered under this name.
    pub fn offers_sampler(&self, name: &str) -> (r: bool)
        ensures
            r == offers(self.samplers@, name@),
    {
        let mut i: usize = 0;
        while i < self.samplers.len()
            invariant
                i <= self.samplers@.len(),
                forall|j: int| 0 <= j < i ==> (#[trigger] self.samplers@[j])@ != name@,
            decreases self.samplers@.len() - i,
        {
            if same_text(self.samplers[i], name) {
                return true;
            }
            i = i + 1;
        }
        false
    }
}

/// A model's identity and capabilities.
#[derive(Debug)]
pub struct ModelDescriptor {
    pub id: &'static str,
    pub family: &'static str,
    pub backend: &'static str,
    pub modality: Modality,
    pub capabilities: Capabilities,
}

/// Why a request does not suit a model.
#[derive(Debug)]
pub enum RequestError {
    /// No image, or too many.
    Count { count: u32, max: u32 },
    /// A side outside the supported range.
    Size { width: u32, height: u32, min: u32, max: u32 },
    /// A side that is no multiple of the patch grid.
    Multiple { width: u32, height: u32 },
    /// A kind of conditioning that the model does not take.
    Conditioning { kind: ConditioningKind },
    /// A sampler that the model does not offer.
    Sampler { name: String, supported: Vec<&'static str> },
    /// Too few steps for the production schedule.
    Steps { steps: u32 },
}

/// The request asks for the few-step schedule.
pub open spec fn asks_for_lightning(req: GenerationRequest) -> bool {
    match req.sampler {
        Some(name) => name@ == LIGHTNING_SAMPLER@,
        None => false,
    }
}

/// Whether the request asks for the few-step schedule.
pub fn is_lightning(req: &GenerationRequest) -> (r: bool)
    ensures
        r == asks_for_lightning(*req),
{
    match &req.sampler {
        Some(name) => same_text(name.as_str(), LIGHTNING_SAMPLER),
        None => false,
    }
}

/// The number of images is in range.
pub open spec fn count_fits(caps: Capabilities, req: GenerationRequest) -> bool {
    0 < req.count <= caps.max_count
}

/// Both sides are in range.
pub open spec fn size_fits(caps: Capabilities, req: GenerationRequest) -> bool {
    &&& caps.min_size <= req.width <= caps.max_size
    &&& caps.min_size <= req.height <= caps.max_size
}

/// Both sides fit the patch grid.
pub open spec fn size_divides(req: GenerationRequest) -> bool {
    req.width % SIDE_MULTIPLE == 0 && req.height % SIDE_MULTIPLE == 0
}

/// Every conditioning is of a kind that the model takes.
pub open spec fn conditioning_fits(caps: Capabilities, req: GenerationRequest) -> bool {
    forall|i: int|
        0 <= i < req.conditioning@.len() ==> caps.conditioning@.contains(
            #[trigger] req.conditioning@[i].kind_of(),
        )
}

/// `kind` is the first kind of conditioning that the model does not take.
pub open spec fn first_refused(
    caps: Capabilities,
    req: GenerationRequest,
    kind: ConditioningKind,
) -> bool {
    exists|i: int|
        {
            &&& 0 <= i < req.conditioning@.len()
            &&& kind == (#[trigger] req.conditioning@[i]).kind_of()
            &&& !caps.conditioning@.contains(kind)
            &&& forall|j: int|
                0 <= j < i ==> caps.conditioning@.contains(
                    (#[trigger] req.conditioning@[j]).kind_of(),
                )
        }
}

/// The sampler is one that the model offers, or not named.
pub open spec fn sampler_fits(caps: Capabilities, req: GenerationRequest) -> bool {
    match req.sampler {
        Some(name) => offers(caps.samplers@, name@),
        None => true,
    }
}

/// The production schedule gets enough steps.
pub open spec fn steps_fit(req: GenerationRequest) -> bool {
    asks_for_lightning(req) || match req.steps {
        Some(steps) => steps >= MIN_PRODUCTION_STEPS,
        None => true,
    }
}

/// The model can serve the request.
pub open spec fn suits(caps: Capabilities, req: GenerationRequest) -> bool {
    &&& count_fits(caps, req)
    &&& size_fits(caps, req)
    &&& size_divides(req)
    &&& conditioning_fits(caps, req)
    &&& sampler_fits(caps, req)
    &&& steps_fit(req)
}

/// The first complaint about a request, in the order of the rules.
pub open spec fn complaint(caps: Capabilities, req: GenerationRequest, e: RequestError) -> bool {
    if !count_fits(caps, req) {
        e == (RequestError::Count { count: req.count, max: caps.max_count })
    } else if !size_fits(caps, req) {
        e == (RequestError::Size {
            width: req.width,
            height: req.height,
            min: caps.min_size,
            max: caps.max_size,
        })
    } else if !size_divides(req) {
        e == (RequestError::Multiple { width: req.width, height: req.height })
    } else if !conditioning_fits(caps, req) {
        e matches RequestError::Conditioning { kind } && first_refused(caps, req, kind)
    } else if !sampler_fits(caps, req) {
        e matches RequestError::Sampler { name, supported } && req.sampler is Some && name@
            == req.sampler->Some_0@ && supported@ == caps.samplers@
    } else {
        !steps_fit(req) && e == (RequestError::Steps { steps: req.steps->Some_0 })
    }
}

fn copy_names(names: &[&'static str]) -> (r: Vec<&'static str>)
    ensures
        r@ == names@,
{
    let mut r: Vec<&'static str> = Vec::new();
    let mut i: usize = 0;
    while i < names.len()
        invariant
            i <= names@.len(),
            r@ == names@.take(i as int),
        decreases names@.len() - i,
    {
        r.push(names[i]);
        assert(names@.take(i + 1) =~= names@.take(i as int).push(names@[i as int]));
        i = i + 1;
    }
    assert(names@.take(names@.len() as int) =~= names@);
    r
}

/// Check a request against a model's capabilities.
pub fn validate_request(caps: &Capabilities, req: &GenerationRequest) -> (r: Result<
    (),
    RequestError,
>)
    ensures
        match r {
            Ok(_) => suits(*caps, *req),
            Err(e) => !suits(*caps, *req) && complaint(*caps, *req, e),
        },
{
    if req.count == 0 || req.count > caps.max_count {
        return Err(RequestError::Count { count: req.count, max: caps.max_count });
    }
    if req.width < caps.min_size || req.height < caps.min_size || req.width > caps.max_size
        || req.height > caps.max_size {
        return Err(
            RequestError::Size {
                width: req.width,
                height: req.height,
                min: caps.min_size,
                max: caps.max_size,
            },
        );
    }
    if req.width % SIDE_MULTIPLE != 0 || req.height % SIDE_MULTIPLE != 0 {
        return Err(RequestError::Multiple { width: req.width, height: req.height });
    }
    let mut i: usize = 0;
    while i < req.conditioning.len()
        invariant
            i <= req.conditioning@.len(),
            count_fits(*caps, *req),
            size_fits(*caps, *req),
            size_divides(*req),
            forall|j: int|
                0 <= j < i ==> caps.conditioning@.contains(
                    (#[trigger] req.conditioning@[j]).kind_of(),
                ),
        decreases req.conditioning@.len() - i,
    {
        let kind: ConditioningKind = req.conditioning[i].kind();
        if !caps.accepts(kind) {
            assert(first_refused(*caps, *req, kind)) by {
                assert(kind == req.conditioning@[i as int].kind_of());
            }
            assert(!conditioning_fits(*caps, *req)) by {
                assert(!caps.conditioning@.contains(req.conditioning@[i as int].kind_of()));
            }
            return Err(RequestError::Conditioning { kind });
        }
        i = i + 1;
    }
    assert(conditioning_fits(*caps, *req));
    if let Some(name) = &req.sampler {
        if !caps.offers_sampler(name.as_str()) {
            let supported: Vec<&'static str> = copy_names(&caps.samplers);
            return Err(RequestError::Sampler { name: name.as_str().to_owned(), supported });
        }
    }
    if !is_lightning(req) {
        if let Some(steps) = req.steps {
            if steps < MIN_PRODUCTION_STEPS {
                return Err(RequestError::Steps { steps });
            }
        }
    }
    Ok(())
}

/// The text that std's `Debug` gives of a string: in quotes, with escapes.
pub uninterp spec fn debug_text(s: Seq<char>) -> Seq<char>;

/// `format!` with std's `Debug` of a string. The contract says only that the text depends on the
/// string alone; which characters are escaped, and how, is left unsaid.
#[verifier::external_body]
fn debug_quoted(s: &str) -> (r: String)
    ensures
        r@ == debug_text(s@),
{
    format!("{:?}", s)
}

/// The first `n` names, quoted, with commas between them.
pub open spec fn names_text(names: Seq<&'static str>, n: nat) -> Seq<char>
    decreases n,
{
    if n == 0 {
        Seq::empty()
    } else if n == 1 {
        debug_text(names[0]@)
    } else {
        names_text(names, (n - 1) as nat) + ", "@ + debug_text(names[n - 1]@)
    }
}

/// The names as a list in brackets.
fn list_text(names: &[&'static str]) -> (r: String)
    ensures
        r@ == "["@ + names_text(names@, names@.len()) + "]"@,
{
    let mut r: String = "[".to_owned();
    let mut i: usize = 0;
    assert(r@ =~= "["@ + names_text(names@, 0));
    while i < names.len()
        invariant
            i <= names@.len(),
            r@ == "["@ + names_text(names@, i as nat),
        decreases names@.len() - i,
    {
        if i > 0 {
            r.append(", ");
        }
        let name: String = debug_quoted(names[i]);
        r.append(name.as_str());
        assert(r@ =~= "["@ + names_text(names@, (i + 1) as nat));
        i = i + 1;
    }
    r.append("]");
    r
}

impl ConditioningKind {
    /// The name of a kind.
    pub open spec fn named(self) -> Seq<char> {
        match self {
            ConditioningKind::Reference => "Reference"@,
            ConditioningKind::MultiReference => "MultiReference"@,
            ConditioningKind::Control => "Control"@,
            ConditioningKind::Depth => "Depth"@,
        }
    }

    /// The name of this kind.
    pub fn name(&self) -> (r: &'static str)
        ensures
            r@ == self.named(),
    {
        match self {
            ConditioningKind::Reference => "Reference",
            ConditioningKind::MultiReference => "MultiReference",
            ConditioningKind::Control => "Control",
            ConditioningKind::Depth => "Depth",
        }
    }
}

/// Two sides with a cross between them.
pub open spec fn size_text(width: u32, height: u32) -> Seq<char> {
    digits(width as nat) + "x"@ + digits(height as nat)
}

fn size_string(width: u32, height: u32) -> (r: String)
    ensures
        r@ == size_text(width, height),
{
    let mut r: String = decimal(width as u64);
    r.append("x");
    r.append(decimal(height as u64).as_str());
    r
}

impl RequestError {
    /// The complaint in words.
    pub open spec fn text(self) -> Seq<char> {
        match self {
            RequestError::Count { count, max } => "count "@ + digits(count as nat)
                + " out of range 1..="@ + digits(max as nat),
            RequestError::Size { width, height, min, max } => size_text(width, height)
                + " out of supported range "@ + digits(min as nat) + "..="@ + digits(max as nat),
            RequestError::Multiple { width, height } => size_text(width, height)
                + " must be a multiple of 16 per side"@,
            RequestError::Conditioning { kind } => "qwen_image (T2I) does not accept "@
                + kind.named() + " conditioning"@,
            RequestError::Sampler { name, supported } => "qwen_image: unsupported sampler "@
                + debug_text(name@) + " (supported: "@ + ("["@ + names_text(
                supported@,
                supported@.len(),
            ) + "]"@) + ", or unset for the production flow-match path)"@,
            RequestError::Steps { steps } =>
            "qwen_image: steps must be >= 2 for the production sampler (got "@ + digits(
                steps as nat,
            ) + ")"@,
        }
    }

    /// This complaint in words.
    pub fn message(&self) -> (r: String)
        ensures
            r@ == self.text(),
    {
        match self {
            RequestError::Count { count, max } => {
                let mut r: String = "count ".to_owned();
                r.append(decimal(*count as u64).as_str());
                r.append(" out of range 1..=");
                r.append(decimal(*max as u64).as_str());
                r
            },
            RequestError::Size { width, height, min, max } => {
                let mut r: String = size_string(*width, *height);
                r.append(" out of supported range ");
                r.append(decimal(*min as u64).as_str());
                r.append("..=");
                r.append(decimal(*max as u64).as_str());
                r
            },
            RequestError::Multiple { width, height } => {
                let mut r: String = size_string(*width, *height);
                r.append(" must be a multiple of 16 per side");
                r
            },
            RequestError::Conditioning { kind } => {
                let mut r: String = "qwen_image (T2I) does not accept ".to_owned();
                r.append(kind.name());
                r.append(" conditioning");
                r
            },
            RequestError::Sampler { name, supported } => {
                let mut r: String = "qwen_image: unsupported sampler ".to_owned();
                r.append(debug_quoted(name.as_str()).as_str());
                r.append(" (supported: ");
                r.append(list_text(supported).as_str());
                r.append(", or unset for the production flow-match path)");
                r
            },
            RequestError::Steps { steps } => {
                let mut r: String =
                    "qwen_image: steps must be >= 2 for the production sampler (got ".to_owned();
                r.append(decimal(*steps as u64).as_str());
                r.append(")");
                r
            },
        }
    }
}

/// A conditioning is of the kind that its form says.
pub proof fn kinds_follow_the_form(c: Conditioning)
    ensures
        c is Reference <==> c.kind_of() == ConditioningKind::Reference,
        c is MultiReference <==> c.kind_of() == ConditioningKind::MultiReference,
        c is Control <==> c.kind_of() == ConditioningKind::Control,
        c is Depth <==> c.kind_of() == ConditioningKind::Depth,
{
}

/// A request asks for the few-step schedule by the name `lightning`, and in no other way.
pub proof fn lightning_is_asked_by_name(req: GenerationRequest)
    ensures
        asks_for_lightning(req) <==> req.sampler is Some && req.sampler->Some_0@ == "lightning"@,
{
}

/// A request is served exactly where it asks for one to `max_count` images, both sides lie within
/// the limits and are multiples of sixteen, every conditioning is of a kind that the model takes,
/// the sampler is unset or offered, and a production run has two steps or more.
pub proof fn served_requests(caps: Capabilities, req: GenerationRequest)
    ensures
        suits(caps, req) <==> {
            &&& 1 <= req.count <= caps.max_count
            &&& caps.min_size <= req.width <= caps.max_size
            &&& caps.min_size <= req.height <= caps.max_size
            &&& req.width % 16 == 0
            &&& req.height % 16 == 0
            &&& forall|i: int|
                0 <= i < req.conditioning@.len() ==> caps.conditioning@.contains(
                    match #[trigger] req.conditioning@[i] {
                        Conditioning::Reference { .. } => ConditioningKind::Reference,
                        Conditioning::MultiReference { .. } => ConditioningKind::MultiReference,
                        Conditioning::Control { .. } => ConditioningKind::Control,
                        Conditioning::Depth { .. } => ConditioningKind::Depth,
                    },
                )
            &&& req.sampler is Some ==> exists|k: int|
                0 <= k < caps.samplers@.len() && (#[trigger] caps.samplers@[k])@
                    == req.sampler->Some_0@
            &&& req.steps is Some && req.steps->Some_0 < 2 ==> req.sampler is Some
                && req.sampler->Some_0@ == "lightning"@
        },
{
    if suits(caps, req) {
        assert forall|i: int| 0 <= i < req.conditioning@.len() implies caps.conditioning@.contains(
            match #[trigger] req.conditioning@[i] {
                Conditioning::Reference { .. } => ConditioningKind::Reference,
                Conditioning::MultiReference { .. } => ConditioningKind::MultiReference,
                Conditioning::Control { .. } => ConditioningKind::Control,
                Conditioning::Depth { .. } => ConditioningKind::Depth,
            },
        ) by {
            assert(caps.conditioning@.contains(req.conditioning@[i].kind_of()));
        }
    }
    assert forall|i: int| 0 <= i < req.conditioning@.len() implies (caps.conditioning@.contains(
        #[trigger] req.conditioning@[i].kind_of(),
    ) <==> caps.conditioning@.contains(
        match req.conditioning@[i] {
            Conditioning::Reference { .. } => ConditioningKind::Reference,
            Conditioning::MultiReference { .. } => ConditioningKind::MultiReference,
            Conditioning::Control { .. } => ConditioningKind::Control,
            Conditioning::Depth { .. } => ConditioningKind::Depth,
        },
    )) by {}
}

/// A complaint names a rule that the request breaks, with the numbers of the request, and every
/// rule before it in the order of the list is kept.
pub proof fn complaints_are_justified(caps: Capabilities, req: GenerationRequest, e: RequestError)
    requires
        complaint(caps, req, e),
    ensures
        e matches RequestError::Count { count, max } ==> count == req.count && max == caps.max_count
            && (req.count == 0 || req.count > caps.max_count),
        !(e is Count) ==> 1 <= req.count <= caps.max_count,
        e matches RequestError::Size { width, height, min, max } ==> width == req.width && height
            == req.height && min == caps.min_size && max == caps.max_size && (req.width
            < caps.min_size || req.width > caps.max_size || req.height < caps.min_size || req.height
            > caps.max_size),
        !(e is Count) && !(e is Size) ==> caps.min_size <= req.width <= caps.max_size
            && caps.min_size <= req.height <= caps.max_size,
        e matches RequestError::Multiple { width, height } ==> width == req.width && height
            == req.height && (req.width % 16 != 0 || req.height % 16 != 0),
        e is Conditioning || e is Sampler || e is Steps ==> req.width % 16 == 0 && req.height % 16
            == 0,
        e matches RequestError::Conditioning { kind } ==> !caps.conditioning@.contains(kind)
            && exists|i: int|
            0 <= i < req.conditioning@.len() && kind == (#[trigger] req.conditioning@[i]).kind_of()
                && forall|j: int|
                0 <= j < i ==> caps.conditioning@.contains(
                    (#[trigger] req.conditioning@[j]).kind_of(),
                ),
        e matches RequestError::Sampler { name, supported } ==> req.sampler is Some && name@
            == req.sampler->Some_0@ && supported@ == caps.samplers@ && forall|k: int|
            0 <= k < caps.samplers@.len() ==> (#[trigger] caps.samplers@[k])@ != name@,
        e matches RequestError::Steps { steps } ==> req.steps == Some(steps) && steps < 2 && !(
        req.sampler is Some && req.sampler->Some_0@ == "lightning"@),
{
}

/// What is said about a request names the numbers at fault.
pub proof fn complaints_in_words(
    n: u32,
    max: u32,
    width: u32,
    height: u32,
    min: u32,
    kind: ConditioningKind,
)
    ensures
        (RequestError::Count { count: n, max }).text() == "count "@ + digits(n as nat)
            + " out of range 1..="@ + digits(max as nat),
        (RequestError::Size { width, height, min, max }).text() == digits(width as nat) + "x"@
            + digits(height as nat) + " out of supported range "@ + digits(min as nat) + "..="@
            + digits(max as nat),
        (RequestError::Multiple { width, height }).text() == digits(width as nat) + "x"@ + digits(
            height as nat,
        ) + " must be a multiple of 16 per side"@,
        (RequestError::Conditioning { kind }).text() == "qwen_image (T2I) does not accept "@ + (
        match kind {
            ConditioningKind::Reference => "Reference"@,
            ConditioningKind::MultiReference => "MultiReference"@,
            ConditioningKind::Control => "Control"@,
            ConditioningKind::Depth => "Depth"@,
        }) + " conditioning"@,
        (RequestError::Steps { steps: n }).text()
            == "qwen_image: steps must be >= 2 for the production sampler (got "@ + digits(n as nat)
            + ")"@,
{
}

} // verus!
