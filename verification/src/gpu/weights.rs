//! Uploading the frozen weights: which buffers are created, in which order, under which labels.

use vstd::prelude::*;

use crate::gpu::lora;
use crate::gpu::lora::target_of;
use crate::gpu::lora::LoraTarget;
use crate::text;
use crate::text::push_decimal;
use crate::text::push_text;

verus! {

/// A part of the model's weights.
#[derive(Clone, Copy, Debug, PartialEq, Eq, Structural)]
pub enum WeightPart {
    /// Token embeddings.
    Wte,
    /// Position embeddings.
    Wpe,
    /// Output head.
    LmHead,
    /// A projection of a layer.
    Layer { layer: usize, target: LoraTarget },
}

/// A part of the weights with the label of its buffer.
#[derive(Debug)]
pub struct WeightUpload {
    pub part: WeightPart,
    pub label: String,
}

/// Weight buffers for all layers, in the order they are uploaded.
#[derive(Debug)]
pub struct GpuWeightBuffers {
    pub uploads: Vec<WeightUpload>,
}

/// What follows the layer number in a label.
pub open spec fn suffix(target: LoraTarget) -> Seq<char> {
    match target {
        LoraTarget::Q => "_wq"@,
        LoraTarget::K => "_wk"@,
        LoraTarget::V => "_wv"@,
        LoraTarget::O => "_wo"@,
        LoraTarget::Mlp1 => "_mlp1"@,
        LoraTarget::Mlp2 => "_mlp2"@,
    }
}

/// The label of a part.
pub open spec fn label_of(part: WeightPart) -> Seq<char> {
    match part {
        WeightPart::Wte => "wte"@,
        WeightPart::Wpe => "wpe"@,
        WeightPart::LmHead => "lm_head"@,
        WeightPart::Layer { layer, target } => "l"@ + text::decimal(layer as nat) + suffix(target),
    }
}

/// The part that is uploaded `i`-th: the embeddings and the head, then the layers one by one.
pub open spec fn part_at(i: int) -> WeightPart {
    if i == 0 {
        WeightPart::Wte
    } else if i == 1 {
        WeightPart::Wpe
    } else if i == 2 {
        WeightPart::LmHead
    } else {
        WeightPart::Layer {
            layer: ((i - 3) / 6) as usize,
            target: lora::target_at((i - 3) % 6),
        }
    }
}

/// A part with its label.
fn upload(part: WeightPart) -> (u: WeightUpload)
    ensures
        u.part == part,
        u.label@ == label_of(part),
{
    let label = match part {
        WeightPart::Wte => "wte".to_string(),
        WeightPart::Wpe => "wpe".to_string(),
        WeightPart::LmHead => "lm_head".to_string(),
        WeightPart::Layer { layer, target } => {
            let mut label = "l".to_string();
            push_decimal(&mut label, layer as u64);
            match target {
                LoraTarget::Q => push_text(&mut label, "_wq"),
                LoraTarget::K => push_text(&mut label, "_wk"),
                LoraTarget::V => push_text(&mut label, "_wv"),
                LoraTarget::O => push_text(&mut label, "_wo"),
                LoraTarget::Mlp1 => push_text(&mut label, "_mlp1"),
                LoraTarget::Mlp2 => push_text(&mut label, "_mlp2"),
            }
            label
        },
    };
    WeightUpload { part, label }
}

impl GpuWeightBuffers {
    /// The buffers of a model with `n_layer` layers.
    pub fn from_weights(n_layer: usize) -> (w: GpuWeightBuffers)
        requires
            3 + 6 * n_layer <= usize::MAX,
        ensures
            w.uploads@.len() == 3 + 6 * n_layer,
            forall|i: int|
                0 <= i < w.uploads@.len() ==> (#[trigger] w.uploads@[i]).part == part_at(i)
                    && w.uploads@[i].label@ == label_of(part_at(i)),
    {
        let mut uploads: Vec<WeightUpload> = Vec::new();
        uploads.push(upload(WeightPart::Wte));
        uploads.push(upload(WeightPart::Wpe));
        uploads.push(upload(WeightPart::LmHead));
        let mut k: usize = 0;
        while k < 6 * n_layer
            invariant
                3 + 6 * n_layer <= usize::MAX,
                k <= 6 * n_layer,
                uploads@.len() == 3 + k,
                forall|i: int|
                    0 <= i < uploads@.len() ==> (#[trigger] uploads@[i]).part == part_at(i)
                        && uploads@[i].label@ == label_of(part_at(i)),
            decreases 6 * n_layer - k,
        {
            let part = WeightPart::Layer { layer: k / 6, target: target_of(k % 6) };
            assert(part == part_at(3 + k));
            uploads.push(upload(part));
            k = k + 1;
        }
        GpuWeightBuffers { uploads }
    }
}

/// The embeddings and the head are uploaded first, then the projections of each layer in the order
/// of the adapters' targets, layer after layer.
pub proof fn law_parts_are_uploaded_in_order(layer: usize, target: LoraTarget)
    ensures
        part_at(0) is Wte,
        part_at(1) is Wpe,
        part_at(2) is LmHead,
        part_at(3 + 6 * layer + target.place()) == (WeightPart::Layer { layer, target }),
{
    let i = 6 * layer + target.place();
    assert(i / 6 == layer && i % 6 == target.place());
}

} // verus!
