//! The forward pass: which buffers it needs and what it records for each position.
//!
//! Positions are processed one after another. Where an operation would read and write one
//! buffer, it writes to a temporary buffer that is copied back.

use vstd::prelude::*;

use crate::gpu::kernels;
use crate::gpu::kernels::dispatch_1d;
use crate::gpu::kernels::Kernel;
use crate::gpu::lora;
use crate::gpu::lora::target_of;
use crate::gpu::lora::LoraTarget;
use crate::gpu::plan;
use crate::gpu::plan::Bindings;
use crate::gpu::plan::BufferId;
use crate::gpu::plan::MatmulParams;
use crate::gpu::plan::Params;
use crate::gpu::plan::Step;
use crate::types::Config;

verus! {

/// Bytes of one item of a buffer.
pub const ITEM_BYTES: usize = 4;

/// The larger of two numbers.
pub open spec fn larger(a: int, b: int) -> int {
    if a < b {
        b
    } else {
        a
    }
}

/// A buffer and the number of its items.
#[derive(Clone, Copy, Debug, PartialEq, Eq, Structural)]
pub struct BufferSize {
    pub id: BufferId,
    pub items: usize,
}

/// A sized buffer.
pub open spec fn sized(id: BufferId, items: int) -> BufferSize {
    BufferSize { id, items: items as usize }
}

/// The working buffers of one position.
pub open spec fn working_buffers(c: Config) -> Seq<BufferSize> {
    let n = c.n_embd as int;
    seq![
        sized(BufferId::Hidden, n),
        sized(BufferId::Residual, n),
        sized(BufferId::Residual2, n),
        sized(BufferId::Q, n),
        sized(BufferId::K, n),
        sized(BufferId::V, n),
        sized(BufferId::AttnOut, n),
        sized(BufferId::MlpHidden, c.mlp_hidden as int),
        sized(BufferId::TempOut, larger(larger(n, c.mlp_hidden as int), c.vocab_size as int)),
    ]
}

/// Saved activations for the backward pass: every buffer with its size, in the order they are
/// created.
#[derive(Debug)]
pub struct GpuActivationBuffers {
    pub buffers: Vec<BufferSize>,
}

/// All activation buffers of a model.
pub open spec fn activation_buffers(c: Config, seq_len: int, rank: usize) -> Seq<BufferSize> {
    working_buffers(c) + Seq::new(
        c.n_layer as nat,
        |i: int|
            sized(BufferId::KeyCache { layer: i as usize }, c.block_size * lora::kv_dim(c)),
    ) + Seq::new(
        c.n_layer as nat,
        |i: int|
            sized(BufferId::ValueCache { layer: i as usize }, c.block_size * lora::kv_dim(c)),
    ) + seq![sized(BufferId::Logits, seq_len * c.vocab_size)] + Seq::new(
        (6 * c.n_layer) as nat,
        |i: int|
            sized(
                BufferId::LoraIntermediate { layer: (i / 6) as usize, target: lora::target_at(i % 6) },
                rank as int,
            ),
    ) + Seq::new(
        (6 * c.n_layer) as nat,
        |i: int|
            sized(
                BufferId::LoraInput { layer: (i / 6) as usize, target: lora::target_at(i % 6) },
                lora::inputs_of(c, lora::target_at(i % 6)),
            ),
    )
}

impl GpuActivationBuffers {
    /// Activation buffers for a config, a sequence length and adapters of a rank.
    pub fn new(config: &Config, seq_len: usize, rank: usize) -> (a: GpuActivationBuffers)
        requires
            lora::kv_dim(*config) <= usize::MAX,
            config.block_size * lora::kv_dim(*config) <= usize::MAX,
            seq_len * config.vocab_size <= usize::MAX,
            6 * config.n_layer <= usize::MAX,
        ensures
            a.buffers@ == activation_buffers(*config, seq_len as int, rank),
    {
        let n: usize = config.n_embd;
        let kvd: usize = config.n_kv_head * config.head_dim;
        let cache: usize = config.block_size * kvd;
        let mut temp: usize = n;
        if temp < config.mlp_hidden {
            temp = config.mlp_hidden;
        }
        if temp < config.vocab_size {
            temp = config.vocab_size;
        }
        let mut b: Vec<BufferSize> = Vec::new();
        b.push(BufferSize { id: BufferId::Hidden, items: n });
        b.push(BufferSize { id: BufferId::Residual, items: n });
        b.push(BufferSize { id: BufferId::Residual2, items: n });
        b.push(BufferSize { id: BufferId::Q, items: n });
        b.push(BufferSize { id: BufferId::K, items: n });
        b.push(BufferSize { id: BufferId::V, items: n });
        b.push(BufferSize { id: BufferId::AttnOut, items: n });
        b.push(BufferSize { id: BufferId::MlpHidden, items: config.mlp_hidden });
        b.push(BufferSize { id: BufferId::TempOut, items: temp });
        let ghost start = b@;
        assert(start =~= working_buffers(*config));
        let ghost all = activation_buffers(*config, seq_len as int, rank);
        let mut i: usize = 0;
        while i < config.n_layer
            invariant
                i <= config.n_layer,
                cache == config.block_size * lora::kv_dim(*config),
                all == activation_buffers(*config, seq_len as int, rank),
                b@ =~= all.take(9 + i),
            decreases config.n_layer - i,
        {
            b.push(BufferSize { id: BufferId::KeyCache { layer: i }, items: cache });
            i = i + 1;
        }
        i = 0;
        while i < config.n_layer
            invariant
                i <= config.n_layer,
                cache == config.block_size * lora::kv_dim(*config),
                all == activation_buffers(*config, seq_len as int, rank),
                b@ =~= all.take(9 + config.n_layer + i),
            decreases config.n_layer - i,
        {
            b.push(BufferSize { id: BufferId::ValueCache { layer: i }, items: cache });
            i = i + 1;
        }
        b.push(BufferSize { id: BufferId::Logits, items: seq_len * config.vocab_size });
        let adapters: usize = 6 * config.n_layer;
        i = 0;
        while i < adapters
            invariant
                i <= adapters == 6 * config.n_layer,
                all == activation_buffers(*config, seq_len as int, rank),
                b@ =~= all.take(10 + 2 * config.n_layer + i),
            decreases adapters - i,
        {
            b.push(
                BufferSize {
                    id: BufferId::LoraIntermediate { layer: i / 6, target: target_of(i % 6) },
                    items: rank,
                },
            );
            i = i + 1;
        }
        i = 0;
        while i < adapters
            invariant
                i <= adapters == 6 * config.n_layer,
                all == activation_buffers(*config, seq_len as int, rank),
                b@ =~= all.take(10 + 8 * config.n_layer + i),
            decreases adapters - i,
        {
            let target = target_of(i % 6);
            let items: usize = match target {
                LoraTarget::Mlp2 => config.mlp_hidden,
                _ => config.n_embd,
            };
            b.push(
                BufferSize { id: BufferId::LoraInput { layer: i / 6, target }, items },
            );
            i = i + 1;
        }
        assert(b@ =~= all);
        GpuActivationBuffers { buffers: b }
    }
}

/// The forward pass of a model: its sizes, the adapters' rank and scale, and the scale of the
/// attention scores. Scales are bit patterns.
#[derive(Clone, Copy, Debug, PartialEq, Eq, Structural)]
pub struct GpuForwardPass {
    pub config: Config,
    pub seq_len: usize,
    pub rank: usize,
    pub alpha: u32,
    pub scale: u32,
}

/// Bindings of a kernel that reads `a`, writes `out`, and leaves the binding between unused.
pub open spec fn one_input(a: BufferId, out: BufferId) -> Bindings {
    Bindings { b0: Some(a), b1: None, b2: Some(out), b3: None, b4: None, uniform: 3 }
}

/// Bindings of a kernel that reads `a` and `b` and writes `out`.
pub open spec fn two_inputs(a: BufferId, b: BufferId, out: BufferId) -> Bindings {
    Bindings { b0: Some(a), b1: Some(b), b2: Some(out), b3: None, b4: None, uniform: 3 }
}

/// A copy of whole items from the start of a buffer.
pub open spec fn copy_items(src: BufferId, dst: BufferId, offset: int, count: int) -> Step {
    Step::Copy {
        src,
        src_offset: 0,
        dst,
        dst_offset: (offset * 4) as u64,
        size: (count * 4) as u64,
    }
}

/// RMSNorm on a buffer (in-place).
pub open spec fn rmsnorm_steps(buffer: BufferId, dim: int) -> Seq<Step> {
    seq![
        Step::Dispatch {
            kernel: Kernel::Rmsnorm,
            bound: Bindings { b0: Some(buffer), b1: None, b2: None, b3: None, b4: None, uniform: 1 },
            params: Params::Layernorm { batch_seq: 1, dim: dim as u32 },
            groups: 1,
        },
    ]
}

/// `dst = src`, by the elementwise kernel.
pub open spec fn copy_steps(src: BufferId, dst: BufferId, count: int) -> Seq<Step> {
    let to = if src == dst {
        BufferId::TempOut
    } else {
        dst
    };
    let run = Step::Dispatch {
        kernel: Kernel::Copy,
        bound: one_input(src, to),
        params: Params::Elementwise { count: count as u32 },
        groups: kernels::groups(count, 256) as u32,
    };
    if src == dst {
        seq![run, copy_items(BufferId::TempOut, dst, 0, count)]
    } else {
        seq![run]
    }
}

/// `out = a + b`.
pub open spec fn add_steps(a: BufferId, b: BufferId, out: BufferId, count: int) -> Seq<Step> {
    let shared = a == out || b == out;
    let to = if shared {
        BufferId::TempOut
    } else {
        out
    };
    let run = Step::Dispatch {
        kernel: Kernel::Add,
        bound: two_inputs(a, b, to),
        params: Params::Elementwise { count: count as u32 },
        groups: kernels::groups(count, 256) as u32,
    };
    if shared {
        seq![run, copy_items(BufferId::TempOut, out, 0, count)]
    } else {
        seq![run]
    }
}

/// `buffer = max(0, buffer)`, always through the temporary buffer.
pub open spec fn relu_steps(buffer: BufferId, count: int) -> Seq<Step> {
    seq![
        Step::Dispatch {
            kernel: Kernel::Relu,
            bound: one_input(buffer, BufferId::TempOut),
            params: Params::Elementwise { count: count as u32 },
            groups: kernels::groups(count, 256) as u32,
        },
        copy_items(BufferId::TempOut, buffer, 0, count),
    ]
}

impl GpuForwardPass {
    /// The sizes that the pass computes with fit the machine.
    pub open spec fn fits(self) -> bool {
        let c = self.config;
        &&& lora::kv_dim(c) <= usize::MAX
        &&& 4 * lora::kv_dim(c) <= usize::MAX
        &&& 4 * (c.block_size * lora::kv_dim(c)) <= usize::MAX
        &&& 4 * (self.seq_len * c.vocab_size) <= usize::MAX
        &&& 4 * c.vocab_size <= usize::MAX
        &&& 4 * c.n_embd <= usize::MAX
        &&& 4 * c.mlp_hidden <= usize::MAX
        &&& 4 * (c.n_head * c.head_dim) <= usize::MAX
        &&& c.n_head * c.n_kv_head <= usize::MAX
    }

    /// `output = W @ input + alpha * B @ (A @ input)`, with the input saved for the backward
    /// pass.
    pub open spec fn lora_steps(
        self,
        layer: usize,
        target: LoraTarget,
        input: BufferId,
        output: BufferId,
        out_dim: int,
        in_dim: int,
    ) -> Seq<Step> {
        let shared = input == output;
        let to = if shared {
            BufferId::TempOut
        } else {
            output
        };
        let inter = BufferId::LoraIntermediate { layer, target };
        copy_steps(input, BufferId::LoraInput { layer, target }, in_dim) + seq![
            Step::Dispatch {
                kernel: Kernel::LoraAForward,
                bound: two_inputs(BufferId::LoraA { layer, target }, input, inter),
                params: Params::LoraA { rank: self.rank as u32, n_embd: in_dim as u32 },
                groups: kernels::groups(self.rank as int, 64) as u32,
            },
            Step::Dispatch {
                kernel: Kernel::LoraBForward,
                bound: Bindings {
                    b0: Some(BufferId::Weight { layer, target }),
                    b1: Some(BufferId::LoraB { layer, target }),
                    b2: Some(input),
                    b3: Some(inter),
                    b4: Some(to),
                    uniform: 5,
                },
                params: Params::LoraB {
                    out_dim: out_dim as u32,
                    n_embd: in_dim as u32,
                    rank: self.rank as u32,
                    alpha: self.alpha,
                },
                groups: kernels::groups(out_dim, 64) as u32,
            },
        ] + (if shared {
            seq![copy_items(BufferId::TempOut, output, 0, out_dim)]
        } else {
            seq![]
        })
    }

    /// The key and value group that a head attends to.
    pub open spec fn group_of(self, head: int) -> int {
        head * self.config.n_kv_head / self.config.n_head as int
    }

    /// Attention of one head: take its query, score it against the layer's caches, put its
    /// output in place.
    pub open spec fn head_steps(self, layer: usize, head: int, pos: int) -> Seq<Step> {
        let hd = self.config.head_dim as int;
        let h = head as usize;
        seq![
            Step::Copy {
                src: BufferId::Q,
                src_offset: (head * hd * 4) as u64,
                dst: BufferId::HeadQuery { head: h },
                dst_offset: 0,
                size: (hd * 4) as u64,
            },
            Step::Dispatch {
                kernel: Kernel::AttentionScore,
                bound: Bindings {
                    b0: Some(BufferId::HeadQuery { head: h }),
                    b1: Some(BufferId::KeyCache { layer }),
                    b2: Some(BufferId::ValueCache { layer }),
                    b3: Some(BufferId::HeadOutput { head: h }),
                    b4: None,
                    uniform: 4,
                },
                params: Params::AttnScore {
                    head_dim: hd as u32,
                    pos: pos as u32,
                    scale: self.scale,
                    kv_offset: (self.group_of(head) * hd) as u32,
                    kv_stride: lora::kv_dim(self.config) as u32,
                },
                groups: 1,
            },
            Step::Copy {
                src: BufferId::HeadOutput { head: h },
                src_offset: 0,
                dst: BufferId::AttnOut,
                dst_offset: (head * hd * 4) as u64,
                size: (hd * 4) as u64,
            },
        ]
    }

    /// Attention of the first `heads` heads.
    pub open spec fn heads_steps(self, layer: usize, heads: nat, pos: int) -> Seq<Step>
        decreases heads,
    {
        if heads == 0 {
            seq![]
        } else {
            self.heads_steps(layer, (heads - 1) as nat, pos) + self.head_steps(
                layer,
                heads - 1,
                pos,
            )
        }
    }

    /// Multi-head attention of a layer for one position.
    pub open spec fn attention_steps(self, layer: usize, pos: int) -> Seq<Step> {
        seq![Step::Zero { buffer: BufferId::AttnOut, count: self.config.n_embd }]
            + self.heads_steps(layer, self.config.n_head as nat, pos)
    }

    /// The normed input kept as residual, and the projections to query, key and value.
    pub open spec fn qkv_steps(self, layer: usize) -> Seq<Step> {
        let n = self.config.n_embd as int;
        let kvd = lora::kv_dim(self.config);
        rmsnorm_steps(BufferId::Hidden, n) + copy_steps(BufferId::Hidden, BufferId::Residual, n)
            + rmsnorm_steps(BufferId::Hidden, n) + self.lora_steps(
            layer,
            LoraTarget::Q,
            BufferId::Hidden,
            BufferId::Q,
            n,
            n,
        ) + self.lora_steps(layer, LoraTarget::K, BufferId::Hidden, BufferId::K, kvd, n)
            + self.lora_steps(layer, LoraTarget::V, BufferId::Hidden, BufferId::V, kvd, n)
    }

    /// Storing key and value, attention, and the output projection with the residual.
    pub open spec fn attend_steps(self, layer: usize, pos: int) -> Seq<Step> {
        let n = self.config.n_embd as int;
        let kvd = lora::kv_dim(self.config);
        seq![
            copy_items(BufferId::K, BufferId::KeyCache { layer }, pos * kvd, kvd),
            copy_items(BufferId::V, BufferId::ValueCache { layer }, pos * kvd, kvd),
        ] + self.attention_steps(layer, pos) + self.lora_steps(
            layer,
            LoraTarget::O,
            BufferId::AttnOut,
            BufferId::Hidden,
            n,
            n,
        ) + add_steps(BufferId::Hidden, BufferId::Residual, BufferId::Hidden, n)
    }

    /// The two projections with ReLU between them, and the residual.
    pub open spec fn mlp_steps(self, layer: usize) -> Seq<Step> {
        let n = self.config.n_embd as int;
        let mlp = self.config.mlp_hidden as int;
        copy_steps(BufferId::Hidden, BufferId::Residual2, n) + rmsnorm_steps(BufferId::Hidden, n)
            + self.lora_steps(
            layer,
            LoraTarget::Mlp1,
            BufferId::Hidden,
            BufferId::MlpHidden,
            mlp,
            n,
        ) + relu_steps(BufferId::MlpHidden, mlp) + self.lora_steps(
            layer,
            LoraTarget::Mlp2,
            BufferId::MlpHidden,
            BufferId::Hidden,
            n,
            mlp,
        ) + add_steps(BufferId::Hidden, BufferId::Residual2, BufferId::Hidden, n)
    }

    /// One transformer layer.
    pub open spec fn layer_steps(self, layer: usize, pos: int) -> Seq<Step> {
        self.qkv_steps(layer) + self.attend_steps(layer, pos) + self.mlp_steps(layer)
    }

    /// The first `layers` layers.
    pub open spec fn layers_steps(self, layers: nat, pos: int) -> Seq<Step>
        decreases layers,
    {
        if layers == 0 {
            seq![]
        } else {
            self.layers_steps((layers - 1) as nat, pos) + self.layer_steps(
                (layers - 1) as usize,
                pos,
            )
        }
    }

    /// The logits of one position.
    pub open spec fn lm_head_steps(self, pos: int) -> Seq<Step> {
        let n = self.config.n_embd as int;
        let v = self.config.vocab_size as int;
        seq![
            Step::Dispatch {
                kernel: Kernel::Matmul,
                bound: two_inputs(BufferId::LmHead, BufferId::Hidden, BufferId::TempLogits),
                params: Params::Matmul {
                    sizes: MatmulParams { m: v as u32, n: n as u32, p: 1, _pad: 0 },
                },
                groups: kernels::groups(v, 16) as u32,
            },
            copy_items(BufferId::TempLogits, BufferId::Logits, pos * v, v),
        ]
    }

    /// Everything for one position.
    pub open spec fn position_steps(self, token: usize, pos: int) -> Seq<Step> {
        seq![Step::Embed { token, pos: pos as usize }] + self.layers_steps(
            self.config.n_layer as nat,
            pos,
        ) + self.lm_head_steps(pos)
    }
}


proof fn lemma_chain(o: Seq<Step>, done: Seq<Step>, next: Seq<Step>)
    ensures
        (o + done) + next == o + (done + next),
{
    assert((o + done) + next =~= o + (done + next));
}

fn bind_one(a: BufferId, out: BufferId) -> (b: Bindings)
    ensures
        b == one_input(a, out),
{
    Bindings { b0: Some(a), b1: None, b2: Some(out), b3: None, b4: None, uniform: 3 }
}

fn bind_two(a: BufferId, b: BufferId, out: BufferId) -> (r: Bindings)
    ensures
        r == two_inputs(a, b, out),
{
    Bindings { b0: Some(a), b1: Some(b), b2: Some(out), b3: None, b4: None, uniform: 3 }
}

/// Copies the first items of `src` to an offset in `dst`.
pub fn dispatch_copy_to_offset(
    steps: &mut Vec<Step>,
    src: BufferId,
    dst: BufferId,
    count: usize,
    offset: usize,
)
    requires
        count * 4 <= usize::MAX,
        offset * 4 <= usize::MAX,
    ensures
        final(steps)@ == old(steps)@ + seq![copy_items(src, dst, offset as int, count as int)],
{
    steps.push(
        Step::Copy {
            src,
            src_offset: 0,
            dst,
            dst_offset: (offset * ITEM_BYTES) as u64,
            size: (count * ITEM_BYTES) as u64,
        },
    );
    assert(steps@ =~= old(steps)@ + seq![copy_items(src, dst, offset as int, count as int)]);
}

/// RMSNorm on a buffer (in-place).
pub fn dispatch_rmsnorm(steps: &mut Vec<Step>, buffer: BufferId, dim: usize)
    ensures
        final(steps)@ == old(steps)@ + rmsnorm_steps(buffer, dim as int),
{
    steps.push(
        Step::Dispatch {
            kernel: Kernel::Rmsnorm,
            bound: Bindings {
                b0: Some(buffer),
                b1: None,
                b2: None,
                b3: None,
                b4: None,
                uniform: 1,
            },
            params: Params::Layernorm { batch_seq: 1, dim: dim as u32 },
            groups: dispatch_1d(1, 64)[0],
        },
    );
    assert(steps@ =~= old(steps)@ + rmsnorm_steps(buffer, dim as int));
}

/// `dst = src`, through the temporary buffer where both are one.
pub fn dispatch_copy(steps: &mut Vec<Step>, src: BufferId, dst: BufferId, count: usize)
    requires
        count * 4 <= usize::MAX,
    ensures
        final(steps)@ == old(steps)@ + copy_steps(src, dst, count as int),
{
    let shared: bool = src == dst;
    let to = if shared {
        BufferId::TempOut
    } else {
        dst
    };
    steps.push(
        Step::Dispatch {
            kernel: Kernel::Copy,
            bound: bind_one(src, to),
            params: Params::Elementwise { count: count as u32 },
            groups: dispatch_1d(count, 256)[0],
        },
    );
    if shared {
        dispatch_copy_to_offset(steps, BufferId::TempOut, dst, count, 0);
    }
    assert(steps@ =~= old(steps)@ + copy_steps(src, dst, count as int));
}

/// `out = a + b`, through the temporary buffer where `out` is one of the inputs.
pub fn dispatch_add(
    steps: &mut Vec<Step>,
    a: BufferId,
    b: BufferId,
    out: BufferId,
    count: usize,
)
    requires
        count * 4 <= usize::MAX,
    ensures
        final(steps)@ == old(steps)@ + add_steps(a, b, out, count as int),
{
    let shared: bool = a == out || b == out;
    let to = if shared {
        BufferId::TempOut
    } else {
        out
    };
    steps.push(
        Step::Dispatch {
            kernel: Kernel::Add,
            bound: bind_two(a, b, to),
            params: Params::Elementwise { count: count as u32 },
            groups: dispatch_1d(count, 256)[0],
        },
    );
    if shared {
        dispatch_copy_to_offset(steps, BufferId::TempOut, out, count, 0);
    }
    assert(steps@ =~= old(steps)@ + add_steps(a, b, out, count as int));
}

/// `buffer = max(0, buffer)`.
pub fn dispatch_relu(steps: &mut Vec<Step>, buffer: BufferId, count: usize)
    requires
        count * 4 <= usize::MAX,
    ensures
        final(steps)@ == old(steps)@ + relu_steps(buffer, count as int),
{
    steps.push(
        Step::Dispatch {
            kernel: Kernel::Relu,
            bound: bind_one(buffer, BufferId::TempOut),
            params: Params::Elementwise { count: count as u32 },
            groups: dispatch_1d(count, 256)[0],
        },
    );
    dispatch_copy_to_offset(steps, BufferId::TempOut, buffer, count, 0);
    assert(steps@ =~= old(steps)@ + relu_steps(buffer, count as int));
}

impl GpuForwardPass {
    /// `output = W @ input + alpha * B @ (A @ input)`, through the temporary buffer where input
    /// and output are one.
    pub fn dispatch_lora_merge(
        &self,
        steps: &mut Vec<Step>,
        layer_idx: usize,
        target: LoraTarget,
        input: BufferId,
        output: BufferId,
        out_dim: usize,
        in_dim: usize,
    )
        requires
            in_dim * 4 <= usize::MAX,
            out_dim * 4 <= usize::MAX,
        ensures
            final(steps)@ == old(steps)@ + self.lora_steps(
                layer_idx,
                target,
                input,
                output,
                out_dim as int,
                in_dim as int,
            ),
    {
        let inter = BufferId::LoraIntermediate { layer: layer_idx, target };
        dispatch_copy(steps, input, BufferId::LoraInput { layer: layer_idx, target }, in_dim);
        let shared: bool = input == output;
        let to = if shared {
            BufferId::TempOut
        } else {
            output
        };
        steps.push(
            Step::Dispatch {
                kernel: Kernel::LoraAForward,
                bound: bind_two(BufferId::LoraA { layer: layer_idx, target }, input, inter),
                params: Params::LoraA { rank: self.rank as u32, n_embd: in_dim as u32 },
                groups: dispatch_1d(self.rank, 64)[0],
            },
        );
        steps.push(
            Step::Dispatch {
                kernel: Kernel::LoraBForward,
                bound: Bindings {
                    b0: Some(BufferId::Weight { layer: layer_idx, target }),
                    b1: Some(BufferId::LoraB { layer: layer_idx, target }),
                    b2: Some(input),
                    b3: Some(inter),
                    b4: Some(to),
                    uniform: 5,
                },
                params: Params::LoraB {
                    out_dim: out_dim as u32,
                    n_embd: in_dim as u32,
                    rank: self.rank as u32,
                    alpha: self.alpha,
                },
                groups: dispatch_1d(out_dim, 64)[0],
            },
        );
        if shared {
            dispatch_copy_to_offset(steps, BufferId::TempOut, output, out_dim, 0);
        }
        assert(steps@ =~= old(steps)@ + self.lora_steps(
            layer_idx,
            target,
            input,
            output,
            out_dim as int,
            in_dim as int,
        ));
    }

    /// Multi-head attention of a layer for one position, one head after another.
    pub fn dispatch_attention(&self, steps: &mut Vec<Step>, layer_idx: usize, pos: usize)
        requires
            self.fits(),
        ensures
            final(steps)@ == old(steps)@ + self.attention_steps(layer_idx, pos as int),
    {
        let hd: usize = self.config.head_dim;
        let n_head: usize = self.config.n_head;
        let n_kv: usize = self.config.n_kv_head;
        let kvd: usize = n_kv * hd;
        steps.push(Step::Zero { buffer: BufferId::AttnOut, count: self.config.n_embd });
        let ghost first = seq![Step::Zero { buffer: BufferId::AttnOut, count: self.config.n_embd }];
        let ghost before = old(steps)@ + first;
        let mut h: usize = 0;
        assert(steps@ =~= before + self.heads_steps(layer_idx, 0, pos as int));
        while h < n_head
            invariant
                h <= n_head,
                self.fits(),
                hd == self.config.head_dim,
                n_head == self.config.n_head,
                n_kv == self.config.n_kv_head,
                kvd == lora::kv_dim(self.config),
                steps@ == before + self.heads_steps(layer_idx, h as nat, pos as int),
            decreases n_head - h,
        {
            proof {
                self.lemma_head_sizes(h as int);
            }
            let group: usize = h * n_kv / n_head;
            let offset: u64 = (h * hd * ITEM_BYTES) as u64;
            let size: u64 = (hd * ITEM_BYTES) as u64;
            let ghost so_far = steps@;
            steps.push(
                Step::Copy {
                    src: BufferId::Q,
                    src_offset: offset,
                    dst: BufferId::HeadQuery { head: h },
                    dst_offset: 0,
                    size,
                },
            );
            steps.push(
                Step::Dispatch {
                    kernel: Kernel::AttentionScore,
                    bound: Bindings {
                        b0: Some(BufferId::HeadQuery { head: h }),
                        b1: Some(BufferId::KeyCache { layer: layer_idx }),
                        b2: Some(BufferId::ValueCache { layer: layer_idx }),
                        b3: Some(BufferId::HeadOutput { head: h }),
                        b4: None,
                        uniform: 4,
                    },
                    params: Params::AttnScore {
                        head_dim: hd as u32,
                        pos: pos as u32,
                        scale: self.scale,
                        kv_offset: (group * hd) as u32,
                        kv_stride: kvd as u32,
                    },
                    groups: 1,
                },
            );
            steps.push(
                Step::Copy {
                    src: BufferId::HeadOutput { head: h },
                    src_offset: 0,
                    dst: BufferId::AttnOut,
                    dst_offset: offset,
                    size,
                },
            );
            assert(steps@ =~= so_far + self.head_steps(layer_idx, h as int, pos as int));
            proof {
                lemma_chain(
                    before,
                    self.heads_steps(layer_idx, h as nat, pos as int),
                    self.head_steps(layer_idx, h as int, pos as int),
                );
            }
            h = h + 1;
        }
        proof {
            lemma_chain(old(steps)@, first, self.heads_steps(layer_idx, n_head as nat, pos as int));
        }
    }

    proof fn lemma_head_sizes(self, h: int)
        requires
            self.fits(),
            0 <= h < self.config.n_head,
        ensures
            0 <= h * self.config.n_kv_head <= usize::MAX,
            0 <= self.group_of(h),
            self.config.n_kv_head > 0 ==> self.group_of(h) < self.config.n_kv_head,
            0 <= self.group_of(h) * self.config.head_dim <= lora::kv_dim(self.config),
            self.config.n_kv_head > 0 ==> (self.group_of(h) + 1) * self.config.head_dim <= lora::kv_dim(
                self.config,
            ),
            0 <= h * self.config.head_dim,
            (h + 1) * self.config.head_dim <= self.config.n_head * self.config.head_dim,
            4 * (h * self.config.head_dim) <= usize::MAX,
            self.config.head_dim * 4 <= usize::MAX,
    {
        let nh = self.config.n_head as int;
        let nk = self.config.n_kv_head as int;
        let hd = self.config.head_dim as int;
        assert(0 <= h * nk <= nh * nk) by (nonlinear_arith)
            requires
                0 <= h < nh,
                0 <= nk,
        ;
        assert(0 <= h * hd && (h + 1) * hd <= nh * hd && (h + 1) * hd == h * hd + hd)
            by (nonlinear_arith)
            requires
                0 <= h < nh,
                0 <= hd,
        ;
        let g = h * nk / nh;
        assert(0 <= g) by (nonlinear_arith)
            requires
                g == h * nk / nh,
                0 <= h * nk,
                0 < nh,
        ;
        if nk > 0 {
            assert(g < nk) by (nonlinear_arith)
                requires
                    g == h * nk / nh,
                    0 <= h < nh,
                    0 < nk,
            ;
            assert(0 <= g * hd && (g + 1) * hd <= nk * hd && (g + 1) * hd == g * hd + hd)
                by (nonlinear_arith)
                requires
                    0 <= g < nk,
                    0 <= hd,
            ;
        } else {
            assert(h * nk == 0) by (nonlinear_arith)
                requires
                    nk == 0,
            ;
            assert(g == 0) by (nonlinear_arith)
                requires
                    g == 0int / nh,
                    0 < nh,
            ;
            assert(nk * hd == 0) by (nonlinear_arith)
                requires
                    nk == 0,
            ;
        }
    }

    fn dispatch_qkv(&self, steps: &mut Vec<Step>, layer_idx: usize)
        requires
            self.fits(),
        ensures
            final(steps)@ == old(steps)@ + self.qkv_steps(layer_idx),
    {
        let n: usize = self.config.n_embd;
        let kvd: usize = self.config.n_kv_head * self.config.head_dim;
        let ghost o = steps@;
        let ghost s1 = rmsnorm_steps(BufferId::Hidden, n as int);
        let ghost s2 = copy_steps(BufferId::Hidden, BufferId::Residual, n as int);
        let ghost s4 = self.lora_steps(
            layer_idx,
            LoraTarget::Q,
            BufferId::Hidden,
            BufferId::Q,
            n as int,
            n as int,
        );
        let ghost s5 = self.lora_steps(
            layer_idx,
            LoraTarget::K,
            BufferId::Hidden,
            BufferId::K,
            kvd as int,
            n as int,
        );
        let ghost s6 = self.lora_steps(
            layer_idx,
            LoraTarget::V,
            BufferId::Hidden,
            BufferId::V,
            kvd as int,
            n as int,
        );
        dispatch_rmsnorm(steps, BufferId::Hidden, n);
        dispatch_copy(steps, BufferId::Hidden, BufferId::Residual, n);
        dispatch_rmsnorm(steps, BufferId::Hidden, n);
        self.dispatch_lora_merge(
            steps,
            layer_idx,
            LoraTarget::Q,
            BufferId::Hidden,
            BufferId::Q,
            n,
            n,
        );
        self.dispatch_lora_merge(
            steps,
            layer_idx,
            LoraTarget::K,
            BufferId::Hidden,
            BufferId::K,
            kvd,
            n,
        );
        self.dispatch_lora_merge(
            steps,
            layer_idx,
            LoraTarget::V,
            BufferId::Hidden,
            BufferId::V,
            kvd,
            n,
        );
        proof {
            lemma_chain(o, s1, s2);
            lemma_chain(o, s1 + s2, s1);
            lemma_chain(o, s1 + s2 + s1, s4);
            lemma_chain(o, s1 + s2 + s1 + s4, s5);
            lemma_chain(o, s1 + s2 + s1 + s4 + s5, s6);
        }
    }

    fn dispatch_attend(&self, steps: &mut Vec<Step>, layer_idx: usize, pos: usize)
        requires
            self.fits(),
            pos < self.config.block_size,
        ensures
            final(steps)@ == old(steps)@ + self.attend_steps(layer_idx, pos as int),
    {
        let n: usize = self.config.n_embd;
        let kvd: usize = self.config.n_kv_head * self.config.head_dim;
        proof {
            lemma_row_fits(pos as int, self.config.block_size as int, kvd as int);
        }
        let ghost o = steps@;
        let ghost s1 = seq![
            copy_items(
                BufferId::K,
                BufferId::KeyCache { layer: layer_idx },
                pos * kvd,
                kvd as int,
            ),
        ];
        let ghost s2 = seq![
            copy_items(
                BufferId::V,
                BufferId::ValueCache { layer: layer_idx },
                pos * kvd,
                kvd as int,
            ),
        ];
        let ghost s3 = self.attention_steps(layer_idx, pos as int);
        let ghost s4 = self.lora_steps(
            layer_idx,
            LoraTarget::O,
            BufferId::AttnOut,
            BufferId::Hidden,
            n as int,
            n as int,
        );
        let ghost s5 = add_steps(
            BufferId::Hidden,
            BufferId::Residual,
            BufferId::Hidden,
            n as int,
        );
        dispatch_copy_to_offset(
            steps,
            BufferId::K,
            BufferId::KeyCache { layer: layer_idx },
            kvd,
            pos * kvd,
        );
        dispatch_copy_to_offset(
            steps,
            BufferId::V,
            BufferId::ValueCache { layer: layer_idx },
            kvd,
            pos * kvd,
        );
        self.dispatch_attention(steps, layer_idx, pos);
        self.dispatch_lora_merge(
            steps,
            layer_idx,
            LoraTarget::O,
            BufferId::AttnOut,
            BufferId::Hidden,
            n,
            n,
        );
        dispatch_add(steps, BufferId::Hidden, BufferId::Residual, BufferId::Hidden, n);
        proof {
            lemma_chain(o, s1, s2);
            assert(s1 + s2 =~= seq![s1[0], s2[0]]);
            lemma_chain(o, s1 + s2, s3);
            lemma_chain(o, s1 + s2 + s3, s4);
            lemma_chain(o, s1 + s2 + s3 + s4, s5);
        }
    }

    fn dispatch_mlp(&self, steps: &mut Vec<Step>, layer_idx: usize)
        requires
            self.fits(),
        ensures
            final(steps)@ == old(steps)@ + self.mlp_steps(layer_idx),
    {
        let n: usize = self.config.n_embd;
        let mlp: usize = self.config.mlp_hidden;
        let ghost o = steps@;
        let ghost s1 = copy_steps(BufferId::Hidden, BufferId::Residual2, n as int);
        let ghost s2 = rmsnorm_steps(BufferId::Hidden, n as int);
        let ghost s3 = self.lora_steps(
            layer_idx,
            LoraTarget::Mlp1,
            BufferId::Hidden,
            BufferId::MlpHidden,
            mlp as int,
            n as int,
        );
        let ghost s4 = relu_steps(BufferId::MlpHidden, mlp as int);
        let ghost s5 = self.lora_steps(
            layer_idx,
            LoraTarget::Mlp2,
            BufferId::MlpHidden,
            BufferId::Hidden,
            n as int,
            mlp as int,
        );
        let ghost s6 = add_steps(
            BufferId::Hidden,
            BufferId::Residual2,
            BufferId::Hidden,
            n as int,
        );
        dispatch_copy(steps, BufferId::Hidden, BufferId::Residual2, n);
        dispatch_rmsnorm(steps, BufferId::Hidden, n);
        self.dispatch_lora_merge(
            steps,
            layer_idx,
            LoraTarget::Mlp1,
            BufferId::Hidden,
            BufferId::MlpHidden,
            mlp,
            n,
        );
        dispatch_relu(steps, BufferId::MlpHidden, mlp);
        self.dispatch_lora_merge(
            steps,
            layer_idx,
            LoraTarget::Mlp2,
            BufferId::MlpHidden,
            BufferId::Hidden,
            n,
            mlp,
        );
        dispatch_add(steps, BufferId::Hidden, BufferId::Residual2, BufferId::Hidden, n);
        proof {
            lemma_chain(o, s1, s2);
            lemma_chain(o, s1 + s2, s3);
            lemma_chain(o, s1 + s2 + s3, s4);
            lemma_chain(o, s1 + s2 + s3 + s4, s5);
            lemma_chain(o, s1 + s2 + s3 + s4 + s5, s6);
        }
    }

    /// One transformer layer.
    pub fn dispatch_layer(&self, steps: &mut Vec<Step>, layer_idx: usize, pos: usize)
        requires
            self.fits(),
            pos < self.config.block_size,
        ensures
            final(steps)@ == old(steps)@ + self.layer_steps(layer_idx, pos as int),
    {
        let ghost o = steps@;
        self.dispatch_qkv(steps, layer_idx);
        self.dispatch_attend(steps, layer_idx, pos);
        self.dispatch_mlp(steps, layer_idx);
        proof {
            let a = self.qkv_steps(layer_idx);
            let b = self.attend_steps(layer_idx, pos as int);
            lemma_chain(o, a, b);
            lemma_chain(o, a + b, self.mlp_steps(layer_idx));
        }
    }

    /// LM head projection: the logits of one position.
    pub fn dispatch_lm_head(&self, steps: &mut Vec<Step>, pos: usize)
        requires
            self.fits(),
            pos < self.seq_len,
        ensures
            final(steps)@ == old(steps)@ + self.lm_head_steps(pos as int),
    {
        let n: usize = self.config.n_embd;
        let v: usize = self.config.vocab_size;
        proof {
            lemma_row_fits(pos as int, self.seq_len as int, v as int);
        }
        steps.push(
            Step::Dispatch {
                kernel: Kernel::Matmul,
                bound: bind_two(BufferId::LmHead, BufferId::Hidden, BufferId::TempLogits),
                params: Params::Matmul {
                    sizes: MatmulParams { m: v as u32, n: n as u32, p: 1, _pad: 0 },
                },
                groups: dispatch_1d(v, 16)[0],
            },
        );
        dispatch_copy_to_offset(steps, BufferId::TempLogits, BufferId::Logits, v, pos * v);
        assert(steps@ =~= old(steps)@ + self.lm_head_steps(pos as int));
    }

    /// What a forward pass over a sequence of tokens records: one plan per position.
    pub fn forward(&self, token_ids: &[usize]) -> (plans: Vec<Vec<Step>>)
        requires
            self.fits(),
            token_ids@.len() <= self.config.block_size,
            token_ids@.len() <= self.seq_len,
            forall|i: int|
                0 <= i < token_ids@.len() ==> #[trigger] token_ids@[i] < self.config.vocab_size,
        ensures
            plans@.len() == token_ids@.len(),
            forall|pos: int|
                0 <= pos < plans@.len() ==> (#[trigger] plans@[pos])@ == self.position_steps(
                    token_ids@[pos],
                    pos,
                ),
    {
        let mut plans: Vec<Vec<Step>> = Vec::new();
        let mut pos: usize = 0;
        while pos < token_ids.len()
            invariant
                pos <= token_ids@.len(),
                self.fits(),
                token_ids@.len() <= self.config.block_size,
                token_ids@.len() <= self.seq_len,
                plans@.len() == pos,
                forall|p: int|
                    0 <= p < plans@.len() ==> (#[trigger] plans@[p])@ == self.position_steps(
                        token_ids@[p],
                        p,
                    ),
            decreases token_ids@.len() - pos,
        {
            let mut steps: Vec<Step> = Vec::new();
            steps.push(Step::Embed { token: token_ids[pos], pos });
            let ghost first = seq![Step::Embed { token: token_ids@[pos as int], pos }];
            let mut layer: usize = 0;
            assert(steps@ =~= first + self.layers_steps(0, pos as int));
            while layer < self.config.n_layer
                invariant
                    layer <= self.config.n_layer,
                    self.fits(),
                    pos < self.config.block_size,
                    steps@ == first + self.layers_steps(layer as nat, pos as int),
                decreases self.config.n_layer - layer,
            {
                self.dispatch_layer(&mut steps, layer, pos);
                proof {
                    lemma_chain(
                        first,
                        self.layers_steps(layer as nat, pos as int),
                        self.layer_steps(layer, pos as int),
                    );
                }
                layer = layer + 1;
            }
            self.dispatch_lm_head(&mut steps, pos);
            plans.push(steps);
            pos = pos + 1;
        }
        plans
    }
}

proof fn lemma_row_fits(row: int, rows: int, width: int)
    requires
        0 <= row < rows,
        0 <= width,
    ensures
        0 <= row * width,
        (row + 1) * width <= rows * width,
        (row + 1) * width == row * width + width,
{
    assert(0 <= row * width && (row + 1) * width <= rows * width && (row + 1) * width == row
        * width + width) by (nonlinear_arith)
        requires
            0 <= row < rows,
            0 <= width,
    ;
}

/// The number of items of a buffer.
pub open spec fn items(f: GpuForwardPass, id: BufferId) -> int {
    let c = f.config;
    match id {
        BufferId::LmHead => c.vocab_size * c.n_embd,
        BufferId::Weight { target, .. } => lora::outputs_of(c, target) * lora::inputs_of(c, target),
        BufferId::MlpHidden => c.mlp_hidden as int,
        BufferId::TempOut => larger(
            larger(c.n_embd as int, c.mlp_hidden as int),
            c.vocab_size as int,
        ),
        BufferId::KeyCache { .. } => c.block_size * lora::kv_dim(c),
        BufferId::ValueCache { .. } => c.block_size * lora::kv_dim(c),
        BufferId::Logits => f.seq_len * c.vocab_size,
        BufferId::LoraIntermediate { .. } => f.rank as int,
        BufferId::LoraInput { target, .. } => lora::inputs_of(c, target),
        BufferId::LoraA { target, .. } => f.rank * lora::inputs_of(c, target),
        BufferId::LoraB { target, .. } => lora::outputs_of(c, target) * f.rank,
        BufferId::HeadQuery { .. } => c.head_dim as int,
        BufferId::HeadOutput { .. } => c.head_dim as int,
        BufferId::TempLogits => c.vocab_size as int,
        _ => c.n_embd as int,
    }
}

/// The activation buffers are created with the sizes that the copies of a pass rely on.
pub proof fn law_activation_sizes(f: GpuForwardPass, i: int)
    requires
        f.fits(),
        0 <= i < activation_buffers(f.config, f.seq_len as int, f.rank).len(),
    ensures
        ({
            let b = activation_buffers(f.config, f.seq_len as int, f.rank)[i];
            b.items == items(f, b.id)
        }),
{
}

impl GpuForwardPass {
    /// The heads and the keys fit the embedding, and the position is one of the sequence.
    pub open spec fn geometry(self, pos: int) -> bool {
        let c = self.config;
        &&& self.fits()
        &&& lora::kv_dim(c) <= c.n_embd
        &&& c.n_head * c.head_dim <= c.n_embd
        &&& 0 <= pos < c.block_size
        &&& pos < self.seq_len
    }
}

/// A copy stays within both of its buffers.
pub open spec fn copy_within(f: GpuForwardPass, s: Step) -> bool {
    s matches Step::Copy { src, src_offset, dst, dst_offset, size } ==> {
        &&& src_offset + size <= 4 * items(f, src)
        &&& dst_offset + size <= 4 * items(f, dst)
        &&& src_offset % 4 == 0
        &&& dst_offset % 4 == 0
        &&& size % 4 == 0
    }
}

/// A copy into a cache or into the logits fills the row of the position.
pub open spec fn own_row(f: GpuForwardPass, pos: int, s: Step) -> bool {
    s matches Step::Copy { dst, dst_offset, size, .. } ==> {
        &&& (dst is KeyCache || dst is ValueCache) ==> dst_offset == pos * lora::kv_dim(f.config) * 4
            && size == lora::kv_dim(f.config) * 4
        &&& dst is Logits ==> dst_offset == pos * f.config.vocab_size * 4 && size
            == f.config.vocab_size * 4
    }
}

/// A step of a layer writes and reads the caches of that layer alone.
pub open spec fn own_caches(layer: usize, s: Step) -> bool {
    match s {
        Step::Copy { dst, .. } => {
            &&& dst is KeyCache ==> dst == (BufferId::KeyCache { layer })
            &&& dst is ValueCache ==> dst == (BufferId::ValueCache { layer })
        },
        Step::Dispatch { kernel: Kernel::AttentionScore, bound, .. } => {
            &&& bound.b1 == Some(BufferId::KeyCache { layer })
            &&& bound.b2 == Some(BufferId::ValueCache { layer })
        },
        _ => true,
    }
}

/// What is proved of each step of a layer's plan.
pub open spec fn layer_step_sound(f: GpuForwardPass, layer: usize, pos: int, s: Step) -> bool {
    step_sound(f, pos, s) && own_caches(layer, s)
}

/// What is proved of each step of a position's plan.
pub open spec fn step_sound(f: GpuForwardPass, pos: int, s: Step) -> bool {
    &&& plan::step_unaliased(s)
    &&& f.geometry(pos) ==> copy_within(f, s) && own_row(f, pos, s)
    &&& covers_past(f, pos, s)
    &&& f.geometry(pos) && small(f) ==> dispatched(s)
}

/// The sizes that the kernels are told are not cut off.
pub open spec fn small(f: GpuForwardPass) -> bool {
    &&& f.config.n_embd <= u32::MAX
    &&& f.config.mlp_hidden <= u32::MAX
    &&& f.config.vocab_size <= u32::MAX
    &&& f.config.head_dim <= u32::MAX
    &&& lora::kv_dim(f.config) <= u32::MAX
    &&& f.rank <= u32::MAX
}

/// A dispatch covers its items and not a workgroup more, in groups of the size that its kernel has,
/// and its parameters are bound behind its buffers.
pub open spec fn dispatched(s: Step) -> bool {
    s matches Step::Dispatch { kernel, bound, params, groups } ==> match params {
        Params::Elementwise { count } => groups * 256 >= count && groups * 256 < count + 256
            && bound.uniform == 3,
        Params::Layernorm { batch_seq, .. } => groups == batch_seq && bound.uniform == 1,
        Params::LoraA { rank, .. } => groups * 64 >= rank && groups * 64 < rank + 64
            && bound.uniform == 3,
        Params::LoraB { out_dim, .. } => groups * 64 >= out_dim && groups * 64 < out_dim + 64
            && bound.uniform == 5,
        Params::AttnScore { .. } => groups == 1 && bound.uniform == 4,
        Params::Matmul { sizes } => groups * 16 >= sizes.m && groups * 16 < sizes.m + 16
            && bound.uniform == 3,
        _ => true,
    }
}

/// Attention covers the cached rows up to and including that of the position.
pub open spec fn covers_past(f: GpuForwardPass, pos: int, s: Step) -> bool {
    s matches Step::Dispatch { kernel: Kernel::AttentionScore, params, .. } ==> (params matches
        Params::AttnScore { head_dim, pos: last, scale, kv_offset, kv_stride } && last == pos as u32
        && head_dim == f.config.head_dim as u32 && scale == f.scale && kv_stride == lora::kv_dim(
        f.config,
    ) as u32)
}

proof fn lemma_position_sound(f: GpuForwardPass, token: usize, pos: int)
    ensures
        plan::every(f.position_steps(token, pos), |s: Step| step_sound(f, pos, s)),
{
    let p = |s: Step| step_sound(f, pos, s);
    if f.geometry(pos) {
        lemma_row_fits(pos, f.seq_len as int, f.config.vocab_size as int);
    }
    lemma_layers_sound(f, f.config.n_layer as nat, pos);
    let a = seq![Step::Embed { token, pos: pos as usize }];
    plan::lemma_every_concat(a, f.layers_steps(f.config.n_layer as nat, pos), p);
    assert(plan::every(f.lm_head_steps(pos), p));
    plan::lemma_every_concat(
        a + f.layers_steps(f.config.n_layer as nat, pos),
        f.lm_head_steps(pos),
        p,
    );
}

/// No dispatch of a forward pass binds a buffer that it writes a second time, and no copy has
/// one buffer at both ends.
pub proof fn law_forward_is_unaliased(f: GpuForwardPass, token: usize, pos: int, i: int)
    requires
        0 <= i < f.position_steps(token, pos).len(),
    ensures
        plan::step_unaliased(f.position_steps(token, pos)[i]),
{
    lemma_position_sound(f, token, pos);
}

/// Every copy of a forward pass stays within its buffers, on whole items.
pub proof fn law_forward_copies_stay_within(f: GpuForwardPass, token: usize, pos: int, i: int)
    requires
        f.geometry(pos),
        0 <= i < f.position_steps(token, pos).len(),
    ensures
        copy_within(f, f.position_steps(token, pos)[i]),
{
    lemma_position_sound(f, token, pos);
}

/// A position writes its own row of the caches and of the logits, and no other.
pub proof fn law_positions_write_own_rows(f: GpuForwardPass, token: usize, pos: int, i: int)
    requires
        f.geometry(pos),
        0 <= i < f.position_steps(token, pos).len(),
    ensures
        own_row(f, pos, f.position_steps(token, pos)[i]),
{
    lemma_position_sound(f, token, pos);
}

/// A layer attends to the keys and values that it has stored itself.
pub proof fn law_layer_keeps_to_its_caches(f: GpuForwardPass, layer: usize, pos: int, i: int)
    requires
        0 <= i < f.layer_steps(layer, pos).len(),
    ensures
        own_caches(layer, f.layer_steps(layer, pos)[i]),
{
    lemma_layer_sound(f, layer, pos);
    assert(layer_step_sound(f, layer, pos, f.layer_steps(layer, pos)[i]));
}

/// The keys that a head attends to lie within a cache row.
pub proof fn law_head_stays_in_row(f: GpuForwardPass, head: int)
    requires
        f.fits(),
        0 <= head < f.config.n_head,
        f.config.n_kv_head > 0,
    ensures
        0 <= f.group_of(head) < f.config.n_kv_head,
        (f.group_of(head) + 1) * f.config.head_dim <= lora::kv_dim(f.config),
{
    f.lemma_head_sizes(head);
}

proof fn lemma_layers_sound(f: GpuForwardPass, layers: nat, pos: int)
    ensures
        plan::every(f.layers_steps(layers, pos), |s: Step| step_sound(f, pos, s)),
    decreases layers,
{
    if layers > 0 {
        let p = |s: Step| step_sound(f, pos, s);
        lemma_layers_sound(f, (layers - 1) as nat, pos);
        let l = (layers - 1) as usize;
        lemma_layer_sound(f, l, pos);
        assert forall|i: int| 0 <= i < f.layer_steps(l, pos).len() implies p(
            #[trigger] f.layer_steps(l, pos)[i],
        ) by {
            assert(layer_step_sound(f, l, pos, f.layer_steps(l, pos)[i]));
        }
        plan::lemma_every_concat(
            f.layers_steps((layers - 1) as nat, pos),
            f.layer_steps(l, pos),
            p,
        );
    }
}

proof fn lemma_layer_sound(f: GpuForwardPass, l: usize, pos: int)
    ensures
        plan::every(f.layer_steps(l, pos), |s: Step| layer_step_sound(f, l, pos, s)),
{
    let p = |s: Step| layer_step_sound(f, l, pos, s);
    lemma_qkv_sound(f, l, pos);
    lemma_attend_sound(f, l, pos);
    lemma_mlp_sound(f, l, pos);
    plan::lemma_every_concat(f.qkv_steps(l), f.attend_steps(l, pos), p);
    plan::lemma_every_concat(f.qkv_steps(l) + f.attend_steps(l, pos), f.mlp_steps(l), p);
}

proof fn lemma_lora_sound(
    f: GpuForwardPass,
    pos: int,
    layer: usize,
    target: LoraTarget,
    input: BufferId,
    output: BufferId,
    out_dim: int,
    in_dim: int,
)
    requires
        input is Hidden || input is AttnOut || input is MlpHidden,
        output is Hidden || output is MlpHidden || output is Q || output is K || output is V,
        f.geometry(pos) ==> in_dim == lora::inputs_of(f.config, target) && 0 <= out_dim <= items(
            f,
            output,
        ) && 4 * out_dim <= usize::MAX && 4 * in_dim <= usize::MAX,
    ensures
        plan::every(
            f.lora_steps(layer, target, input, output, out_dim, in_dim),
            |s: Step| layer_step_sound(f, layer, pos, s),
        ),
{
}

proof fn lemma_qkv_sound(f: GpuForwardPass, l: usize, pos: int)
    ensures
        plan::every(f.qkv_steps(l), |s: Step| layer_step_sound(f, l, pos, s)),
{
    let p = |s: Step| layer_step_sound(f, l, pos, s);
    let n = f.config.n_embd as int;
    let kvd = lora::kv_dim(f.config);
    let s1 = rmsnorm_steps(BufferId::Hidden, n);
    let s2 = copy_steps(BufferId::Hidden, BufferId::Residual, n);
    let s4 = f.lora_steps(l, LoraTarget::Q, BufferId::Hidden, BufferId::Q, n, n);
    let s5 = f.lora_steps(l, LoraTarget::K, BufferId::Hidden, BufferId::K, kvd, n);
    let s6 = f.lora_steps(l, LoraTarget::V, BufferId::Hidden, BufferId::V, kvd, n);
    lemma_lora_sound(f, pos, l, LoraTarget::Q, BufferId::Hidden, BufferId::Q, n, n);
    lemma_lora_sound(f, pos, l, LoraTarget::K, BufferId::Hidden, BufferId::K, kvd, n);
    lemma_lora_sound(f, pos, l, LoraTarget::V, BufferId::Hidden, BufferId::V, kvd, n);
    plan::lemma_every_concat(s1, s2, p);
    plan::lemma_every_concat(s1 + s2, s1, p);
    plan::lemma_every_concat(s1 + s2 + s1, s4, p);
    plan::lemma_every_concat(s1 + s2 + s1 + s4, s5, p);
    plan::lemma_every_concat(s1 + s2 + s1 + s4 + s5, s6, p);
}

proof fn lemma_heads_sound(f: GpuForwardPass, l: usize, heads: nat, pos: int)
    requires
        heads <= f.config.n_head,
    ensures
        plan::every(f.heads_steps(l, heads, pos), |s: Step| layer_step_sound(f, l, pos, s)),
    decreases heads,
{
    if heads > 0 {
        let p = |s: Step| layer_step_sound(f, l, pos, s);
        lemma_heads_sound(f, l, (heads - 1) as nat, pos);
        let h = heads - 1;
        let hd = f.config.head_dim as int;
        if f.geometry(pos) {
            f.lemma_head_sizes(h);
            assert((h + 1) * hd == h * hd + hd) by (nonlinear_arith);
            assert((h * hd * 4) as u64 == 4 * (h * hd));
        }
        assert(plan::every(f.head_steps(l, h, pos), p));
        plan::lemma_every_concat(
            f.heads_steps(l, (heads - 1) as nat, pos),
            f.head_steps(l, heads - 1, pos),
            p,
        );
    }
}

proof fn lemma_attend_sound(f: GpuForwardPass, l: usize, pos: int)
    ensures
        plan::every(f.attend_steps(l, pos), |s: Step| layer_step_sound(f, l, pos, s)),
{
    let p = |s: Step| layer_step_sound(f, l, pos, s);
    let n = f.config.n_embd as int;
    let kvd = lora::kv_dim(f.config);
    if f.geometry(pos) {
        lemma_row_fits(pos, f.config.block_size as int, kvd);
    }
    let zero = seq![Step::Zero { buffer: BufferId::AttnOut, count: f.config.n_embd }];
    let s1 = seq![
        copy_items(BufferId::K, BufferId::KeyCache { layer: l }, pos * kvd, kvd),
        copy_items(BufferId::V, BufferId::ValueCache { layer: l }, pos * kvd, kvd),
    ];
    let s2 = f.attention_steps(l, pos);
    let s3 = f.lora_steps(l, LoraTarget::O, BufferId::AttnOut, BufferId::Hidden, n, n);
    let s4 = add_steps(BufferId::Hidden, BufferId::Residual, BufferId::Hidden, n);
    lemma_heads_sound(f, l, f.config.n_head as nat, pos);
    plan::lemma_every_concat(zero, f.heads_steps(l, f.config.n_head as nat, pos), p);
    lemma_lora_sound(f, pos, l, LoraTarget::O, BufferId::AttnOut, BufferId::Hidden, n, n);
    plan::lemma_every_concat(s1, s2, p);
    plan::lemma_every_concat(s1 + s2, s3, p);
    plan::lemma_every_concat(s1 + s2 + s3, s4, p);
}

proof fn lemma_mlp_sound(f: GpuForwardPass, l: usize, pos: int)
    ensures
        plan::every(f.mlp_steps(l), |s: Step| layer_step_sound(f, l, pos, s)),
{
    let p = |s: Step| layer_step_sound(f, l, pos, s);
    let n = f.config.n_embd as int;
    let mlp = f.config.mlp_hidden as int;
    let s1 = copy_steps(BufferId::Hidden, BufferId::Residual2, n);
    let s2 = rmsnorm_steps(BufferId::Hidden, n);
    let s3 = f.lora_steps(l, LoraTarget::Mlp1, BufferId::Hidden, BufferId::MlpHidden, mlp, n);
    let s4 = relu_steps(BufferId::MlpHidden, mlp);
    let s5 = f.lora_steps(l, LoraTarget::Mlp2, BufferId::MlpHidden, BufferId::Hidden, n, mlp);
    let s6 = add_steps(BufferId::Hidden, BufferId::Residual2, BufferId::Hidden, n);
    lemma_lora_sound(f, pos, l, LoraTarget::Mlp1, BufferId::Hidden, BufferId::MlpHidden, mlp, n);
    lemma_lora_sound(f, pos, l, LoraTarget::Mlp2, BufferId::MlpHidden, BufferId::Hidden, n, mlp);
    plan::lemma_every_concat(s1, s2, p);
    plan::lemma_every_concat(s1 + s2, s3, p);
    plan::lemma_every_concat(s1 + s2 + s3, s4, p);
    plan::lemma_every_concat(s1 + s2 + s3 + s4, s5, p);
    plan::lemma_every_concat(s1 + s2 + s3 + s4 + s5, s6, p);
}

/// In the plan of a position every attention covers exactly the cached rows from the first to that
/// of the position, and there is one for each head of each layer.
pub proof fn law_positions_attend_to_all_before(
    f: GpuForwardPass,
    token: usize,
    pos: int,
    i: int,
)
    requires
        0 <= pos <= u32::MAX,
        f.config.head_dim <= u32::MAX,
    ensures
        0 <= i < f.position_steps(token, pos).len() ==> (f.position_steps(token, pos)[i] matches
            Step::Dispatch { kernel: Kernel::AttentionScore, params, .. } ==> (params matches
            Params::AttnScore { head_dim, pos: last, scale, kv_offset, kv_stride } && last == pos
            && head_dim == f.config.head_dim && scale == f.scale)),
        attentions(f.position_steps(token, pos)) == f.config.n_layer * f.config.n_head,
{
    lemma_position_sound(f, token, pos);
    if 0 <= i < f.position_steps(token, pos).len() {
        assert(step_sound(f, pos, f.position_steps(token, pos)[i]));
    }
    let a = seq![Step::Embed { token, pos: pos as usize }];
    let b = f.layers_steps(f.config.n_layer as nat, pos);
    lemma_attentions_add(a, b);
    lemma_attentions_add(a + b, f.lm_head_steps(pos));
    lemma_no_attentions(a);
    lemma_no_attentions(f.lm_head_steps(pos));
    lemma_layers_attend(f, f.config.n_layer as nat, pos);
}

/// A head's keys and values start where its group's do: heads of one group share them, and the
/// groups lie one after another.
pub proof fn law_heads_share_groups(f: GpuForwardPass, head: int)
    requires
        0 <= head < f.config.n_head,
        0 < f.config.n_kv_head <= f.config.n_head,
        f.config.n_head % f.config.n_kv_head == 0,
    ensures
        ({
            let share = (f.config.n_head / f.config.n_kv_head) as int;
            f.group_of(head) == head / share
        }),
{
    let n = f.config.n_head as int;
    let g = f.config.n_kv_head as int;
    let share = n / g;
    vstd::arithmetic::div_mod::lemma_fundamental_div_mod(n, g);
    assert(n == g * share);
    let q = head / share;
    let r = head % share;
    assert(share > 0) by (nonlinear_arith)
        requires
            n == g * share,
            n > 0,
            g > 0,
    ;
    vstd::arithmetic::div_mod::lemma_fundamental_div_mod(head, share);
    assert(head * g == q * n + r * g) by (nonlinear_arith)
        requires
            head == share * q + r,
            n == g * share,
    ;
    assert(0 <= r * g < n) by (nonlinear_arith)
        requires
            0 <= r < share,
            n == g * share,
            g > 0,
    ;
    vstd::arithmetic::div_mod::lemma_fundamental_div_mod_converse(head * g, n, q, r * g);
}

/// How many steps are attentions.
pub open spec fn attentions(steps: Seq<Step>) -> nat
    decreases steps.len(),
{
    if steps.len() == 0 {
        0
    } else {
        attentions(steps.drop_last()) + (if steps.last() matches Step::Dispatch {
            kernel: Kernel::AttentionScore,
            ..
        } {
            1nat
        } else {
            0
        })
    }
}

proof fn lemma_attentions_add(a: Seq<Step>, b: Seq<Step>)
    ensures
        attentions(a + b) == attentions(a) + attentions(b),
    decreases b.len(),
{
    if b.len() == 0 {
        assert(a + b =~= a);
    } else {
        lemma_attentions_add(a, b.drop_last());
        assert((a + b).drop_last() =~= a + b.drop_last());
    }
}

proof fn lemma_no_attentions(s: Seq<Step>)
    requires
        forall|i: int|
            0 <= i < s.len() ==> !(#[trigger] s[i] matches Step::Dispatch {
                kernel: Kernel::AttentionScore,
                ..
            }),
    ensures
        attentions(s) == 0,
    decreases s.len(),
{
    if s.len() > 0 {
        lemma_no_attentions(s.drop_last());
        assert(s.last() == s[s.len() - 1]);
    }
}

proof fn lemma_heads_attend(f: GpuForwardPass, l: usize, heads: nat, pos: int)
    ensures
        attentions(f.heads_steps(l, heads, pos)) == heads,
    decreases heads,
{
    if heads > 0 {
        lemma_heads_attend(f, l, (heads - 1) as nat, pos);
        let one = f.head_steps(l, heads - 1, pos);
        lemma_attentions_add(f.heads_steps(l, (heads - 1) as nat, pos), one);
        let a = seq![one[0]];
        let b = seq![one[1]];
        let c = seq![one[2]];
        assert(one =~= a + b + c);
        lemma_attentions_add(a, b);
        lemma_attentions_add(a + b, c);
        lemma_no_attentions(a);
        lemma_no_attentions(c);
        assert(b.drop_last() =~= Seq::<Step>::empty());
        assert(attentions(b.drop_last()) == 0);
    }
}

proof fn lemma_layers_attend(f: GpuForwardPass, layers: nat, pos: int)
    ensures
        attentions(f.layers_steps(layers, pos)) == layers * f.config.n_head,
    decreases layers,
{
    if layers > 0 {
        lemma_layers_attend(f, (layers - 1) as nat, pos);
        let l = (layers - 1) as usize;
        lemma_attentions_add(f.layers_steps((layers - 1) as nat, pos), f.layer_steps(l, pos));
        lemma_attentions_add(f.qkv_steps(l), f.attend_steps(l, pos));
        lemma_attentions_add(f.qkv_steps(l) + f.attend_steps(l, pos), f.mlp_steps(l));
        lemma_no_attentions(f.qkv_steps(l));
        lemma_no_attentions(f.mlp_steps(l));
        let n = f.config.n_embd as int;
        let kvd = lora::kv_dim(f.config);
        let s1 = seq![
            copy_items(BufferId::K, BufferId::KeyCache { layer: l }, pos * kvd, kvd),
            copy_items(BufferId::V, BufferId::ValueCache { layer: l }, pos * kvd, kvd),
        ];
        let zero = seq![Step::Zero { buffer: BufferId::AttnOut, count: f.config.n_embd }];
        let heads = f.heads_steps(l, f.config.n_head as nat, pos);
        let s2 = f.attention_steps(l, pos);
        let s3 = f.lora_steps(l, LoraTarget::O, BufferId::AttnOut, BufferId::Hidden, n, n);
        let s4 = add_steps(BufferId::Hidden, BufferId::Residual, BufferId::Hidden, n);
        lemma_attentions_add(zero, heads);
        lemma_no_attentions(zero);
        lemma_heads_attend(f, l, f.config.n_head as nat, pos);
        lemma_attentions_add(s1, s2);
        lemma_attentions_add(s1 + s2, s3);
        lemma_attentions_add(s1 + s2 + s3, s4);
        lemma_no_attentions(s1);
        lemma_no_attentions(s3);
        lemma_no_attentions(s4);
        assert(layers * f.config.n_head == (layers - 1) * f.config.n_head + f.config.n_head)
            by (nonlinear_arith);
    } else {
        assert(0 * f.config.n_head == 0);
    }
}

/// Every dispatch of a forward pass covers the items that its parameters speak of.
pub proof fn law_forward_dispatches_cover(f: GpuForwardPass, token: usize, pos: int, i: int)
    requires
        f.geometry(pos),
        small(f),
        0 <= i < f.position_steps(token, pos).len(),
    ensures
        dispatched(f.position_steps(token, pos)[i]),
{
    lemma_position_sound(f, token, pos);
    assert(step_sound(f, pos, f.position_steps(token, pos)[i]));
}

/// Every working buffer, every layer's two caches, the logits and the two buffers of each adapter
/// are created, each once.
pub proof fn law_activation_buffers_are_complete(
    c: Config,
    seq_len: int,
    rank: usize,
    layer: usize,
    target: LoraTarget,
)
    requires
        layer < c.n_layer,
    ensures
        ({
            let b = activation_buffers(c, seq_len, rank);
            let (n, l, k) = (c.n_layer as int, layer as int, target.place());
            &&& b.len() == 10 + 14 * n
            &&& b[9 + l].id == (BufferId::KeyCache { layer })
            &&& b[9 + n + l].id == (BufferId::ValueCache { layer })
            &&& b[9 + 2 * n].id is Logits
            &&& b[10 + 2 * n + 6 * l + k].id == (BufferId::LoraIntermediate { layer, target })
            &&& b[10 + 8 * n + 6 * l + k].id == (BufferId::LoraInput { layer, target })
        }),
{
    let b = activation_buffers(c, seq_len, rank);
    let (n, l, k) = (c.n_layer as int, layer as int, target.place());
    let i = 6 * l + k;
    assert(i / 6 == l && i % 6 == k);
    assert(lora::target_at(k) == target);
    assert(b[10 + 2 * n + i].id == (BufferId::LoraIntermediate { layer, target }));
    assert(b[10 + 8 * n + i].id == (BufferId::LoraInput { layer, target }));
}

} // verus!
