//! Which parts of the models are quantized, and in which order.
use vstd::prelude::*;

verus! {

/// A part whose linear maps can be quantized.
#[derive(Clone, Copy, Debug, PartialEq, Eq, Structural)]
pub enum Part {
    /// The vision backbone, which detector and tracker share.
    Backbone,
    TextEncoder,
    GeometryEncoder,
    Detector,
    MaskHead,
    MaskDecoder,
    MemoryAttention,
    ObjectPointer,
    TemporalProjection,
}

/// The parts of the image segmenter besides the backbone.
pub open spec fn segmenter_heads() -> Seq<Part> {
    seq![Part::TextEncoder, Part::GeometryEncoder, Part::Detector, Part::MaskHead]
}

/// The parts of the tracker besides the backbone.
pub open spec fn tracker_heads() -> Seq<Part> {
    seq![Part::MaskDecoder, Part::MemoryAttention, Part::ObjectPointer, Part::TemporalProjection]
}

/// The models that can be quantized.
#[derive(Clone, Copy, Debug, PartialEq, Eq, Structural)]
pub enum Model {
    Segmenter,
    Tracker,
    /// Segmenter and tracker over one backbone.
    Video,
}

/// The parts of a model in the order in which they are quantized.
pub open spec fn quantized(model: Model) -> Seq<Part> {
    seq![Part::Backbone] + match model {
        Model::Segmenter => segmenter_heads(),
        Model::Tracker => tracker_heads(),
        Model::Video => segmenter_heads() + tracker_heads(),
    }
}

/// The parts to quantize, in order.
pub fn quantize(model: Model) -> (r: Vec<Part>)
    ensures
        r@ == quantized(model),
{
    let mut r: Vec<Part> = Vec::new();
    r.push(Part::Backbone);
    if model != Model::Tracker {
        r.push(Part::TextEncoder);
        r.push(Part::GeometryEncoder);
        r.push(Part::Detector);
        r.push(Part::MaskHead);
    }
    if model != Model::Segmenter {
        r.push(Part::MaskDecoder);
        r.push(Part::MemoryAttention);
        r.push(Part::ObjectPointer);
        r.push(Part::TemporalProjection);
    }
    assert(r@ =~= quantized(model));
    r
}

/// No part is quantized twice, in particular not the backbone that two models share.
pub proof fn parts_are_quantized_once(model: Model, i: int, j: int)
    requires
        0 <= i < quantized(model).len(),
        0 <= j < quantized(model).len(),
        quantized(model)[i] == quantized(model)[j],
    ensures
        i == j,
{
}

/// The backbone is always quantised; the heads of the segmenter are for a segmenter and for a video,
/// those of the tracker for a tracker and for a video.
pub proof fn heads_are_quantized_with_their_model(model: Model, part: Part)
    ensures
        quantized(model).contains(part) <==> match part {
            Part::Backbone => true,
            Part::TextEncoder | Part::GeometryEncoder | Part::Detector | Part::MaskHead => model
                != Model::Tracker,
            Part::MaskDecoder
            | Part::MemoryAttention
            | Part::ObjectPointer
            | Part::TemporalProjection => model != Model::Segmenter,
        },
        quantized(model)[0] == Part::Backbone,
        quantized(model).len() == match model {
            Model::Video => 9nat,
            _ => 5nat,
        },
{
    let q = quantized(model);
    assert(q[0] == Part::Backbone);
    match model {
        Model::Segmenter => {
            assert(q[1] == Part::TextEncoder && q[2] == Part::GeometryEncoder);
            assert(q[3] == Part::Detector && q[4] == Part::MaskHead);
        },
        Model::Tracker => {
            assert(q[1] == Part::MaskDecoder && q[2] == Part::MemoryAttention);
            assert(q[3] == Part::ObjectPointer && q[4] == Part::TemporalProjection);
        },
        Model::Video => {
            assert(q[1] == Part::TextEncoder && q[2] == Part::GeometryEncoder);
            assert(q[3] == Part::Detector && q[4] == Part::MaskHead);
            assert(q[5] == Part::MaskDecoder && q[6] == Part::MemoryAttention);
            assert(q[7] == Part::ObjectPointer && q[8] == Part::TemporalProjection);
        },
    }
}

} // verus!
