//! What is recorded for the device: buffers, dispatches and copies.

use vstd::prelude::*;

use crate::gpu::kernels::Kernel;
use crate::gpu::lora::LoraTarget;

verus! {

/// A buffer on the device.
#[derive(Clone, Copy, Debug, PartialEq, Eq, Structural)]
pub enum BufferId {
    LmHead,
    Weight { layer: usize, target: LoraTarget },
    Hidden,
    Residual,
    Residual2,
    Q,
    K,
    V,
    AttnOut,
    MlpHidden,
    TempOut,
    KeyCache { layer: usize },
    ValueCache { layer: usize },
    Logits,
    LoraIntermediate { layer: usize, target: LoraTarget },
    LoraInput { layer: usize, target: LoraTarget },
    LoraA { layer: usize, target: LoraTarget },
    LoraB { layer: usize, target: LoraTarget },
    HeadQuery { head: usize },
    HeadOutput { head: usize },
    TempLogits,
    Targets,
    PerSampleLoss,
    LossOutput,
    LogProbs,
    Param { adapter: usize, second: bool },
    Grad { adapter: usize, second: bool },
    FirstMoment { adapter: usize, second: bool },
    SecondMoment { adapter: usize, second: bool },
}

/// Parameters of a matrix product.
#[derive(Clone, Copy, Debug, PartialEq, Eq, Structural)]
pub struct MatmulParams {
    pub m: u32,
    pub n: u32,
    pub p: u32,
    pub _pad: u32,
}

/// The uniform parameters of a dispatch. Single-precision numbers are bit patterns.
#[derive(Clone, Copy, Debug, PartialEq, Eq, Structural)]
pub enum Params {
    Matmul { sizes: MatmulParams },
    Elementwise { count: u32 },
    Layernorm { batch_seq: u32, dim: u32 },
    AttnScore { head_dim: u32, pos: u32, scale: u32, kv_offset: u32, kv_stride: u32 },
    LoraA { rank: u32, n_embd: u32 },
    LoraB { out_dim: u32, n_embd: u32, rank: u32, alpha: u32 },
    Loss { batch_seq: u32, vocab_size: u32, total_tokens: u32 },
    AdamW {
        lr: u32,
        beta1: u32,
        beta2: u32,
        eps: u32,
        weight_decay: u32,
        step: u32,
        param_count: u32,
    },
}

impl Params {
    /// The words of a uniform buffer, padded to whole rows of four.
    pub open spec fn layout(self) -> Seq<u32> {
        match self {
            Params::Matmul { sizes } => seq![sizes.m, sizes.n, sizes.p, sizes._pad],
            Params::Elementwise { count } => seq![count, 0, 0, 0],
            Params::Layernorm { batch_seq, dim } => seq![batch_seq, dim, 0, 0],
            Params::AttnScore { head_dim, pos, scale, kv_offset, kv_stride } => seq![
                head_dim,
                pos,
                scale,
                kv_offset,
                kv_stride,
                0,
                0,
                0,
            ],
            Params::LoraA { rank, n_embd } => seq![rank, n_embd, 0, 0],
            Params::LoraB { out_dim, n_embd, rank, alpha } => seq![out_dim, n_embd, rank, alpha],
            Params::Loss { batch_seq, vocab_size, total_tokens } => seq![
                batch_seq,
                vocab_size,
                total_tokens,
                0,
            ],
            Params::AdamW { lr, beta1, beta2, eps, weight_decay, step, param_count } => seq![
                lr,
                beta1,
                beta2,
                eps,
                weight_decay,
                step,
                param_count,
                0,
            ],
        }
    }

    /// The words of the uniform buffer.
    pub fn words(&self) -> (w: Vec<u32>)
        ensures
            w@ == self.layout(),
    {
        let w: Vec<u32> = match *self {
            Params::Matmul { sizes } => vec![sizes.m, sizes.n, sizes.p, sizes._pad],
            Params::Elementwise { count } => vec![count, 0, 0, 0],
            Params::Layernorm { batch_seq, dim } => vec![batch_seq, dim, 0, 0],
            Params::AttnScore { head_dim, pos, scale, kv_offset, kv_stride } => vec![
                head_dim,
                pos,
                scale,
                kv_offset,
                kv_stride,
                0,
                0,
                0,
            ],
            Params::LoraA { rank, n_embd } => vec![rank, n_embd, 0, 0],
            Params::LoraB { out_dim, n_embd, rank, alpha } => vec![out_dim, n_embd, rank, alpha],
            Params::Loss { batch_seq, vocab_size, total_tokens } => vec![
                batch_seq,
                vocab_size,
                total_tokens,
                0,
            ],
            Params::AdamW { lr, beta1, beta2, eps, weight_decay, step, param_count } => vec![
                lr,
                beta1,
                beta2,
                eps,
                weight_decay,
                step,
                param_count,
                0,
            ],
        };
        assert(w@ =~= self.layout());
        w
    }
}

/// The storage buffers bound to a kernel by binding number, and the number of the binding that
/// holds the parameters.
#[derive(Clone, Copy, Debug, PartialEq, Eq)]
pub struct Bindings {
    pub b0: Option<BufferId>,
    pub b1: Option<BufferId>,
    pub b2: Option<BufferId>,
    pub b3: Option<BufferId>,
    pub b4: Option<BufferId>,
    pub uniform: u32,
}

impl Bindings {
    /// The buffer at a binding number.
    pub open spec fn slot(self, i: int) -> Option<BufferId> {
        if i == 0 {
            self.b0
        } else if i == 1 {
            self.b1
        } else if i == 2 {
            self.b2
        } else if i == 3 {
            self.b3
        } else if i == 4 {
            self.b4
        } else {
            None
        }
    }

    /// The buffer at a binding number.
    pub fn at(&self, i: u32) -> (b: Option<BufferId>)
        ensures
            b == self.slot(i as int),
    {
        match i {
            0 => self.b0,
            1 => self.b1,
            2 => self.b2,
            3 => self.b3,
            4 => self.b4,
            _ => None,
        }
    }
}

/// One thing that is recorded for the device.
#[derive(Clone, Copy, Debug, PartialEq, Eq)]
pub enum Step {
    /// `hidden = wte[token] + wpe[pos]`.
    Embed { token: usize, pos: usize },
    /// Fill a buffer's first items with zeros.
    Zero { buffer: BufferId, count: usize },
    /// Run a kernel over a number of workgroups.
    Dispatch { kernel: Kernel, bound: Bindings, params: Params, groups: u32 },
    /// Copy bytes between buffers.
    Copy { src: BufferId, src_offset: u64, dst: BufferId, dst_offset: u64, size: u64 },
}

/// Whether a kernel writes the buffer at a binding.
pub open spec fn written(kernel: Kernel, i: int) -> bool {
    match kernel {
        Kernel::Matmul => i == 2,
        Kernel::Add => i == 2,
        Kernel::Relu => i == 2,
        Kernel::Copy => i == 2,
        Kernel::Rmsnorm => i == 0,
        Kernel::AttentionScore => i == 3,
        Kernel::LoraAForward => i == 2,
        Kernel::LoraBForward => i == 4,
        Kernel::CrossEntropyPerSample => i == 2 || i == 3,
        Kernel::CrossEntropyReduce => i == 1,
        Kernel::AdamwStep => i == 0 || i == 2 || i == 3,
        _ => true,
    }
}

/// No buffer that the kernel writes is bound a second time: the device forbids one buffer both
/// as read and as read-write in a single dispatch.
pub open spec fn unaliased(kernel: Kernel, b: Bindings) -> bool {
    forall|i: int, j: int|
        #![trigger b.slot(i), b.slot(j)]
        0 <= i < 5 && 0 <= j < 5 && i != j && written(kernel, i) && b.slot(i) is Some ==> b.slot(i)
            != b.slot(j)
}

/// A step that the device accepts as far as its buffers go.
pub open spec fn step_unaliased(s: Step) -> bool {
    match s {
        Step::Dispatch { kernel, bound, .. } => unaliased(kernel, bound),
        Step::Copy { src, dst, .. } => src != dst,
        _ => true,
    }
}

/// Every step of a plan satisfies a predicate.
pub open spec fn every(steps: Seq<Step>, p: spec_fn(Step) -> bool) -> bool {
    forall|i: int| 0 <= i < steps.len() ==> p(#[trigger] steps[i])
}

pub proof fn lemma_every_concat(a: Seq<Step>, b: Seq<Step>, p: spec_fn(Step) -> bool)
    requires
        every(a, p),
        every(b, p),
    ensures
        every(a + b, p),
{
    assert forall|i: int| 0 <= i < (a + b).len() implies p(#[trigger] (a + b)[i]) by {
        if i < a.len() {
            assert((a + b)[i] == a[i]);
        } else {
            assert((a + b)[i] == b[i - a.len()]);
        }
    }
}

/// The words of a uniform buffer fill whole rows of four, the fields in the order in which they are
/// declared.
pub proof fn law_uniform_layout(p: Params)
    ensures
        p.layout().len() % 4 == 0,
        p.layout().len() > 0,
        p matches Params::Matmul { sizes } ==> p.layout()[0] == sizes.m && p.layout()[1] == sizes.n
            && p.layout()[2] == sizes.p,
        p matches Params::Elementwise { count } ==> p.layout()[0] == count,
        p matches Params::Layernorm { batch_seq, dim } ==> p.layout()[0] == batch_seq && p.layout()[1]
            == dim,
        p matches Params::AttnScore { head_dim, pos, scale, kv_offset, kv_stride } ==> {
            &&& p.layout()[0] == head_dim
            &&& p.layout()[1] == pos
            &&& p.layout()[2] == scale
            &&& p.layout()[3] == kv_offset
            &&& p.layout()[4] == kv_stride
        },
        p matches Params::LoraA { rank, n_embd } ==> p.layout()[0] == rank && p.layout()[1]
            == n_embd,
        p matches Params::LoraB { out_dim, n_embd, rank, alpha } ==> {
            &&& p.layout()[0] == out_dim
            &&& p.layout()[1] == n_embd
            &&& p.layout()[2] == rank
            &&& p.layout()[3] == alpha
        },
        p matches Params::Loss { batch_seq, vocab_size, total_tokens } ==> {
            &&& p.layout()[0] == batch_seq
            &&& p.layout()[1] == vocab_size
            &&& p.layout()[2] == total_tokens
        },
        p matches Params::AdamW { lr, beta1, beta2, eps, weight_decay, step, param_count } ==> {
            &&& p.layout()[0] == lr
            &&& p.layout()[1] == beta1
            &&& p.layout()[2] == beta2
            &&& p.layout()[3] == eps
            &&& p.layout()[4] == weight_decay
            &&& p.layout()[5] == step
            &&& p.layout()[6] == param_count
        },
{
}

} // verus!
