//! The backward pass through the adapters: which products and which gradients it computes.
//!
//! Base weights are frozen; gradients are computed for the LoRA matrices only:
//!
//! ```text
//! forward:  lora_out = base_out + alpha * B @ (A @ input)
//! grad_B:   dL/dB = alpha * outer(dL/d_lora_out, A @ input)
//! grad_A:   dL/dA = alpha * outer(B^T @ dL/d_lora_out, input)
//! ```

use vstd::prelude::*;

use crate::gpu::lora;
use crate::gpu::lora::LoraTarget;
use crate::types::Config;

verus! {

/// A gradient vector of one layer.
#[derive(Clone, Copy, Debug, PartialEq, Eq, Structural)]
pub enum GradId {
    /// At the layer's output.
    Hidden,
    MlpHidden,
    AfterNorm,
    AfterAttn,
    AttnOut,
    InputQ,
    InputK,
    InputV,
    /// Before the attention's normalization, without the residual.
    BeforeNorm,
    /// At the layer's input.
    Input,
}

/// One computation on gradients.
#[derive(Clone, Copy, Debug, PartialEq, Eq, Structural)]
pub enum GradStep {
    /// `output = W^T @ input[..len]`, for the `rows` by `cols` weight of a projection.
    Project {
        weight: LoraTarget,
        rows: usize,
        cols: usize,
        input: GradId,
        len: usize,
        output: GradId,
    },
    /// Accumulate the gradients of an adapter from `grad[..len]`.
    Lora { target: LoraTarget, grad: GradId, len: usize },
    /// `output = first + second`.
    Sum { first: GradId, second: GradId, output: GradId },
    /// `output = q + k + v`.
    SumInputs { q: GradId, k: GradId, v: GradId, output: GradId },
}

/// The length of a gradient vector.
pub open spec fn grad_len(c: Config, id: GradId) -> int {
    match id {
        GradId::MlpHidden => c.mlp_hidden as int,
        _ => c.n_embd as int,
    }
}

/// The computations of one layer.
pub open spec fn layer_grad_steps(c: Config) -> Seq<GradStep> {
    let n = c.n_embd;
    let mlp = c.mlp_hidden;
    let kvd = lora::kv_dim(c) as usize;
    seq![
        GradStep::Project {
            weight: LoraTarget::Mlp2,
            rows: n,
            cols: mlp,
            input: GradId::Hidden,
            len: n,
            output: GradId::MlpHidden,
        },
        GradStep::Lora { target: LoraTarget::Mlp2, grad: GradId::Hidden, len: n },
        GradStep::Project {
            weight: LoraTarget::Mlp1,
            rows: mlp,
            cols: n,
            input: GradId::MlpHidden,
            len: mlp,
            output: GradId::AfterNorm,
        },
        GradStep::Lora { target: LoraTarget::Mlp1, grad: GradId::MlpHidden, len: mlp },
        GradStep::Sum {
            first: GradId::Hidden,
            second: GradId::AfterNorm,
            output: GradId::AfterAttn,
        },
        GradStep::Project {
            weight: LoraTarget::O,
            rows: n,
            cols: n,
            input: GradId::AfterAttn,
            len: n,
            output: GradId::AttnOut,
        },
        GradStep::Lora { target: LoraTarget::O, grad: GradId::AfterAttn, len: n },
        GradStep::Project {
            weight: LoraTarget::Q,
            rows: n,
            cols: n,
            input: GradId::AttnOut,
            len: n,
            output: GradId::InputQ,
        },
        GradStep::Lora { target: LoraTarget::Q, grad: GradId::AttnOut, len: n },
        GradStep::Project {
            weight: LoraTarget::K,
            rows: kvd,
            cols: n,
            input: GradId::AttnOut,
            len: kvd,
            output: GradId::InputK,
        },
        GradStep::Lora { target: LoraTarget::K, grad: GradId::AttnOut, len: kvd },
        GradStep::Project {
            weight: LoraTarget::V,
            rows: kvd,
            cols: n,
            input: GradId::AttnOut,
            len: kvd,
            output: GradId::InputV,
        },
        GradStep::Lora { target: LoraTarget::V, grad: GradId::AttnOut, len: kvd },
        GradStep::SumInputs {
            q: GradId::InputQ,
            k: GradId::InputK,
            v: GradId::InputV,
            output: GradId::BeforeNorm,
        },
        GradStep::Sum {
            first: GradId::AfterAttn,
            second: GradId::BeforeNorm,
            output: GradId::Input,
        },
    ]
}

/// The logits of one position, and the token whose probability loses one in their gradient.
#[derive(Clone, Copy, Debug, PartialEq, Eq)]
pub struct LogitRow {
    pub start: usize,
    pub end: usize,
    pub target: Option<usize>,
}

/// The row of a position.
pub open spec fn logit_row(c: Config, pos: int, target: usize) -> LogitRow {
    LogitRow {
        start: (pos * c.vocab_size) as usize,
        end: ((pos + 1) * c.vocab_size) as usize,
        target: if target < c.vocab_size {
            Some(target)
        } else {
            None
        },
    }
}

/// Backward pass: gradients for LoRA A and B only.
#[derive(Clone, Copy, Debug, PartialEq, Eq, Structural)]
pub struct GpuBackwardPass {
    pub config: Config,
}

impl GpuBackwardPass {
    /// Create a new backward pass.
    pub fn new(config: Config) -> (b: GpuBackwardPass)
        ensures
            b.config == config,
    {
        GpuBackwardPass { config }
    }

    /// The positions of a backward pass: each row of logits with its target.
    pub fn backward_pass(&self, seq_len: usize, targets: &[usize]) -> (rows: Vec<LogitRow>)
        requires
            seq_len <= targets@.len(),
            seq_len * self.config.vocab_size <= usize::MAX,
        ensures
            rows@ == Seq::new(
                seq_len as nat,
                |pos: int| logit_row(self.config, pos, targets@[pos]),
            ),
    {
        let v: usize = self.config.vocab_size;
        let mut rows: Vec<LogitRow> = Vec::new();
        let mut pos: usize = 0;
        let mut start: usize = 0;
        while pos < seq_len
            invariant
                pos <= seq_len <= targets@.len(),
                v == self.config.vocab_size,
                seq_len * v <= usize::MAX,
                start == pos * v,
                rows@ =~= Seq::new(
                    pos as nat,
                    |p: int| logit_row(self.config, p, targets@[p]),
                ),
            decreases seq_len - pos,
        {
            assert((pos + 1) * v == pos * v + v && (pos + 1) * v <= seq_len * v)
                by (nonlinear_arith)
                requires
                    pos < seq_len,
            ;
            let target: Option<usize> = if targets[pos] < v {
                Some(targets[pos])
            } else {
                None
            };
            rows.push(LogitRow { start, end: start + v, target });
            start = start + v;
            pos = pos + 1;
        }
        rows
    }

    /// The layers in the order the gradient passes them.
    pub fn layer_order(&self) -> (r: Vec<usize>)
        ensures
            r@ == Seq::new(
                self.config.n_layer as nat,
                |i: int| (self.config.n_layer - 1 - i) as usize,
            ),
    {
        let mut r: Vec<usize> = Vec::new();
        let mut left: usize = self.config.n_layer;
        while left > 0
            invariant
                left <= self.config.n_layer,
                r@ =~= Seq::new(
                    (self.config.n_layer - left) as nat,
                    |i: int| (self.config.n_layer - 1 - i) as usize,
                ),
            decreases left,
        {
            left = left - 1;
            r.push(left);
        }
        r
    }

    /// The computations of one layer.
    pub fn backward_layer(&self) -> (steps: Vec<GradStep>)
        requires
            lora::kv_dim(self.config) <= self.config.n_embd,
        ensures
            steps@ == layer_grad_steps(self.config),
    {
        let n: usize = self.config.n_embd;
        let mlp: usize = self.config.mlp_hidden;
        let kvd: usize = self.config.n_kv_head * self.config.head_dim;
        let mut steps: Vec<GradStep> = Vec::new();
        steps.push(
            GradStep::Project {
                weight: LoraTarget::Mlp2,
                rows: n,
                cols: mlp,
                input: GradId::Hidden,
                len: n,
                output: GradId::MlpHidden,
            },
        );
        steps.push(GradStep::Lora { target: LoraTarget::Mlp2, grad: GradId::Hidden, len: n });
        steps.push(
            GradStep::Project {
                weight: LoraTarget::Mlp1,
                rows: mlp,
                cols: n,
                input: GradId::MlpHidden,
                len: mlp,
                output: GradId::AfterNorm,
            },
        );
        steps.push(
            GradStep::Lora { target: LoraTarget::Mlp1, grad: GradId::MlpHidden, len: mlp },
        );
        steps.push(
            GradStep::Sum {
                first: GradId::Hidden,
                second: GradId::AfterNorm,
                output: GradId::AfterAttn,
            },
        );
        steps.push(
            GradStep::Project {
                weight: LoraTarget::O,
                rows: n,
                cols: n,
                input: GradId::AfterAttn,
                len: n,
                output: GradId::AttnOut,
            },
        );
        steps.push(GradStep::Lora { target: LoraTarget::O, grad: GradId::AfterAttn, len: n });
        steps.push(
            GradStep::Project {
                weight: LoraTarget::Q,
                rows: n,
                cols: n,
                input: GradId::AttnOut,
                len: n,
                output: GradId::InputQ,
            },
        );
        steps.push(GradStep::Lora { target: LoraTarget::Q, grad: GradId::AttnOut, len: n });
        steps.push(
            GradStep::Project {
                weight: LoraTarget::K,
                rows: kvd,
                cols: n,
                input: GradId::AttnOut,
                len: kvd,
                output: GradId::InputK,
            },
        );
        steps.push(GradStep::Lora { target: LoraTarget::K, grad: GradId::AttnOut, len: kvd });
        steps.push(
            GradStep::Project {
                weight: LoraTarget::V,
                rows: kvd,
                cols: n,
                input: GradId::AttnOut,
                len: kvd,
                output: GradId::InputV,
            },
        );
        steps.push(GradStep::Lora { target: LoraTarget::V, grad: GradId::AttnOut, len: kvd });
        steps.push(
            GradStep::SumInputs {
                q: GradId::InputQ,
                k: GradId::InputK,
                v: GradId::InputV,
                output: GradId::BeforeNorm,
            },
        );
        steps.push(
            GradStep::Sum {
                first: GradId::AfterAttn,
                second: GradId::BeforeNorm,
                output: GradId::Input,
            },
        );
        assert(steps@ =~= layer_grad_steps(self.config));
        steps
    }
}

/// Every computation of a layer fits its vectors: a product takes as much of its input as its
/// weight has rows and gives a vector of its weight's columns, and an adapter's gradient has
/// one entry per output of its projection.
pub proof fn law_gradients_have_matching_shapes(c: Config, i: int)
    requires
        lora::kv_dim(c) <= c.n_embd,
        0 <= i < layer_grad_steps(c).len(),
    ensures
        match layer_grad_steps(c)[i] {
            GradStep::Project { weight, rows, cols, input, len, output } => {
                &&& rows == lora::outputs_of(c, weight)
                &&& cols == lora::inputs_of(c, weight)
                &&& len == rows
                &&& len <= grad_len(c, input)
                &&& cols == grad_len(c, output)
            },
            GradStep::Lora { target, grad, len } => {
                &&& len == lora::outputs_of(c, target)
                &&& len <= grad_len(c, grad)
            },
            GradStep::Sum { first, second, output } => {
                &&& grad_len(c, first) == grad_len(c, output)
                &&& grad_len(c, second) == grad_len(c, output)
            },
            GradStep::SumInputs { q, k, v, output } => {
                &&& grad_len(c, q) == grad_len(c, output)
                &&& grad_len(c, k) == grad_len(c, output)
                &&& grad_len(c, v) == grad_len(c, output)
            },
        },
{
}

/// The sum of two vectors.
pub open spec fn vector_sum(a: Seq<int>, b: Seq<int>) -> Seq<int> {
    Seq::new(a.len(), |i: int| a[i] + b[i])
}

/// The gradients after one computation, where `product` multiplies a vector by a projection's
/// transposed weight.
pub open spec fn after_step(
    step: GradStep,
    product: spec_fn(LoraTarget, Seq<int>) -> Seq<int>,
    g: Map<GradId, Seq<int>>,
) -> Map<GradId, Seq<int>> {
    match step {
        GradStep::Project { weight, rows, cols, input, len, output } => g.insert(
            output,
            product(weight, g[input].take(len as int)),
        ),
        GradStep::Lora { target, grad, len } => g,
        GradStep::Sum { first, second, output } => g.insert(
            output,
            vector_sum(g[first], g[second]),
        ),
        GradStep::SumInputs { q, k, v, output } => g.insert(
            output,
            vector_sum(vector_sum(g[q], g[k]), g[v]),
        ),
    }
}

/// The gradients after the first `n` computations of a plan, from that at the layer's output.
pub open spec fn after_steps(
    steps: Seq<GradStep>,
    product: spec_fn(LoraTarget, Seq<int>) -> Seq<int>,
    hidden: Seq<int>,
    n: nat,
) -> Map<GradId, Seq<int>>
    decreases n,
{
    if n == 0 {
        map![GradId::Hidden => hidden]
    } else {
        after_step(
            steps[n - 1],
            product,
            after_steps(steps, product, hidden, (n - 1) as nat),
        )
    }
}

/// The residual connections carry the gradient through a layer: where the projections behind
/// them give nothing, the gradient at the layer's input is that at its output.
pub proof fn law_residual_carries_the_gradient(
    c: Config,
    product: spec_fn(LoraTarget, Seq<int>) -> Seq<int>,
    hidden: Seq<int>,
)
    requires
        hidden.len() == c.n_embd,
        forall|t: LoraTarget, x: Seq<int>|
            !(t is O || t is Mlp2) ==> #[trigger] product(t, x) == Seq::new(
                c.n_embd as nat,
                |i: int| 0int,
            ),
    ensures
        after_steps(
            layer_grad_steps(c),
            product,
            hidden,
            layer_grad_steps(c).len(),
        )[GradId::Input] == hidden,
{
    let s = layer_grad_steps(c);
    let zero = Seq::new(c.n_embd as nat, |i: int| 0int);
    let at = |n: nat| after_steps(s, product, hidden, n);
    assert(at(1) == after_step(s[0], product, at(0)));
    assert(at(2) == after_step(s[1], product, at(1)));
    assert(at(3) == after_step(s[2], product, at(2)));
    assert(at(4) == after_step(s[3], product, at(3)));
    assert(at(4)[GradId::AfterNorm] == zero);
    assert(at(4)[GradId::Hidden] == hidden);
    assert(at(5) == after_step(s[4], product, at(4)));
    assert(vector_sum(hidden, zero) =~= hidden);
    assert(at(5)[GradId::AfterAttn] == hidden);
    assert(at(6) == after_step(s[5], product, at(5)));
    assert(at(7) == after_step(s[6], product, at(6)));
    assert(at(8) == after_step(s[7], product, at(7)));
    assert(at(9) == after_step(s[8], product, at(8)));
    assert(at(10) == after_step(s[9], product, at(9)));
    assert(at(11) == after_step(s[10], product, at(10)));
    assert(at(12) == after_step(s[11], product, at(11)));
    assert(at(13) == after_step(s[12], product, at(12)));
    assert(at(13)[GradId::InputQ] == zero);
    assert(at(13)[GradId::InputK] == zero);
    assert(at(13)[GradId::InputV] == zero);
    assert(at(13)[GradId::AfterAttn] == hidden);
    assert(vector_sum(vector_sum(zero, zero), zero) =~= zero);
    assert(at(14) == after_step(s[13], product, at(13)));
    assert(at(14)[GradId::BeforeNorm] == zero);
    assert(at(14)[GradId::AfterAttn] == hidden);
    assert(at(15) == after_step(s[14], product, at(14)));
}

/// Each adapter of a layer has its gradients accumulated exactly once per position.
pub proof fn law_each_adapter_once(c: Config, target: LoraTarget)
    ensures
        exists|i: int|
            0 <= i < layer_grad_steps(c).len() && {
                &&& (#[trigger] layer_grad_steps(c)[i] matches GradStep::Lora { target: t, .. }
                    && t == target)
                &&& forall|j: int|
                    0 <= j < layer_grad_steps(c).len() && j != i
                        ==> !(#[trigger] layer_grad_steps(c)[j] matches GradStep::Lora {
                        target: t,
                        ..
                    } && t == target)
            },
{
    let s = layer_grad_steps(c);
    let i: int = match target {
        LoraTarget::Mlp2 => 1,
        LoraTarget::Mlp1 => 3,
        LoraTarget::O => 6,
        LoraTarget::Q => 8,
        LoraTarget::K => 10,
        LoraTarget::V => 12,
    };
    assert(s[i] matches GradStep::Lora { target: t, .. } && t == target);
}

/// The rows of a backward pass follow one another and cover the logits.
pub proof fn law_logit_rows_are_adjacent(c: Config, pos: int, t1: usize, t2: usize)
    requires
        0 <= pos,
        (pos + 2) * c.vocab_size <= usize::MAX,
    ensures
        logit_row(c, pos, t1).end == logit_row(c, pos + 1, t2).start,
        logit_row(c, pos, t1).end - logit_row(c, pos, t1).start == c.vocab_size,
{
    let v = c.vocab_size as int;
    assert(0 <= pos * v && (pos + 1) * v == pos * v + v && (pos + 2) * v == pos * v + 2 * v)
        by (nonlinear_arith)
        requires
            0 <= pos,
            0 <= v,
    ;
}

/// The gradient that an adapter is trained on: what the computation that trains it takes of the
/// vector that it names, with the gradients as they are then.
pub open spec fn adapter_gradient(
    c: Config,
    product: spec_fn(LoraTarget, Seq<int>) -> Seq<int>,
    hidden: Seq<int>,
    i: int,
) -> Seq<int> {
    let g = after_steps(layer_grad_steps(c), product, hidden, i as nat);
    g[layer_grad_steps(c)[i]->Lora_grad].take(layer_grad_steps(c)[i]->Lora_len as int)
}

/// The gradient goes back through a layer by the chain rule: through the second and the first MLP
/// projection and past them, then through the output projection to queries, keys and values, and
/// past those. Each adapter is trained on the gradient at the output of its own projection.
pub proof fn law_gradients_follow_the_chain_rule(
    c: Config,
    product: spec_fn(LoraTarget, Seq<int>) -> Seq<int>,
    hidden: Seq<int>,
)
    requires
        hidden.len() == c.n_embd,
        lora::kv_dim(c) <= c.n_embd,
        forall|t: LoraTarget, x: Seq<int>| (#[trigger] product(t, x)).len() == lora::inputs_of(c, t),
    ensures
        ({
            let at_mlp = product(LoraTarget::Mlp2, hidden);
            let past_mlp = vector_sum(hidden, product(LoraTarget::Mlp1, at_mlp));
            let at_heads = product(LoraTarget::O, past_mlp);
            let narrow = at_heads.take(lora::kv_dim(c));
            let behind = vector_sum(
                vector_sum(product(LoraTarget::Q, at_heads), product(LoraTarget::K, narrow)),
                product(LoraTarget::V, narrow),
            );
            let s = layer_grad_steps(c);
            &&& after_steps(s, product, hidden, s.len())[GradId::Input] == vector_sum(
                past_mlp,
                behind,
            )
            &&& forall|i: int|
                0 <= i < s.len() ==> (#[trigger] s[i] matches GradStep::Lora { target, .. }
                    ==> adapter_gradient(c, product, hidden, i) == (match target {
                    LoraTarget::Mlp2 => hidden,
                    LoraTarget::Mlp1 => at_mlp,
                    LoraTarget::O => past_mlp,
                    LoraTarget::Q => at_heads,
                    _ => narrow,
                }))
        }),
{
    let s = layer_grad_steps(c);
    let kvd = lora::kv_dim(c);
    let at = |n: nat| after_steps(s, product, hidden, n);
    let at_mlp = product(LoraTarget::Mlp2, hidden);
    let past_mlp = vector_sum(hidden, product(LoraTarget::Mlp1, at_mlp));
    let at_heads = product(LoraTarget::O, past_mlp);
    let narrow = at_heads.take(kvd);
    assert(hidden.take(c.n_embd as int) =~= hidden);
    assert(at_mlp.take(c.mlp_hidden as int) =~= at_mlp);
    assert(past_mlp.take(c.n_embd as int) =~= past_mlp);
    assert(at_heads.take(c.n_embd as int) =~= at_heads);
    assert(kvd >= 0) by (nonlinear_arith)
        requires
            kvd == c.n_kv_head * c.head_dim,
    ;
    assert(at(1) == after_step(s[0], product, at(0)));
    assert(at(1)[GradId::Hidden] == hidden && at(1)[GradId::MlpHidden] == at_mlp);
    assert(at(2) == after_step(s[1], product, at(1)));
    assert(at(3) == after_step(s[2], product, at(2)));
    assert(at(3)[GradId::Hidden] == hidden && at(3)[GradId::MlpHidden] == at_mlp);
    assert(at(3)[GradId::AfterNorm] == product(LoraTarget::Mlp1, at_mlp));
    assert(at(4) == after_step(s[3], product, at(3)));
    assert(at(5) == after_step(s[4], product, at(4)));
    assert(at(5)[GradId::AfterAttn] == past_mlp);
    assert(at(6) == after_step(s[5], product, at(5)));
    assert(at(6)[GradId::AfterAttn] == past_mlp && at(6)[GradId::AttnOut] == at_heads);
    assert(at(7) == after_step(s[6], product, at(6)));
    assert(at(8) == after_step(s[7], product, at(7)));
    assert(at(8)[GradId::AttnOut] == at_heads && at(8)[GradId::AfterAttn] == past_mlp);
    assert(at(8)[GradId::InputQ] == product(LoraTarget::Q, at_heads));
    assert(at(9) == after_step(s[8], product, at(8)));
    assert(at(10) == after_step(s[9], product, at(9)));
    assert(at(10)[GradId::AttnOut] == at_heads && at(10)[GradId::AfterAttn] == past_mlp);
    assert(at(10)[GradId::InputQ] == product(LoraTarget::Q, at_heads));
    assert(at(10)[GradId::InputK] == product(LoraTarget::K, narrow));
    assert(at(11) == after_step(s[10], product, at(10)));
    assert(at(12) == after_step(s[11], product, at(11)));
    assert(at(12)[GradId::AttnOut] == at_heads && at(12)[GradId::AfterAttn] == past_mlp);
    assert(at(12)[GradId::InputV] == product(LoraTarget::V, narrow));
    assert(at(12)[GradId::InputQ] == product(LoraTarget::Q, at_heads));
    assert(at(12)[GradId::InputK] == product(LoraTarget::K, narrow));
    assert(at(13) == after_step(s[12], product, at(12)));
    assert(at(14) == after_step(s[13], product, at(13)));
    assert(at(14)[GradId::AfterAttn] == past_mlp);
    assert(at(15) == after_step(s[14], product, at(14)));
    assert forall|i: int| 0 <= i < s.len() implies (#[trigger] s[i] matches GradStep::Lora {
        target,
        ..
    } ==> adapter_gradient(c, product, hidden, i) == (match target {
        LoraTarget::Mlp2 => hidden,
        LoraTarget::Mlp1 => at_mlp,
        LoraTarget::O => past_mlp,
        LoraTarget::Q => at_heads,
        _ => narrow,
    })) by {
        assert(i == 0 || i == 1 || i == 2 || i == 3 || i == 4 || i == 5 || i == 6 || i == 7 || i
            == 8 || i == 9 || i == 10 || i == 11 || i == 12 || i == 13 || i == 14);
        assert(at(i as nat) == after_steps(s, product, hidden, i as nat));
    }
}

/// A row of logits belongs to one position, and its target is marked exactly when it is a token.
pub proof fn law_targets_are_tokens(c: Config, pos: int, target: usize)
    requires
        0 <= pos,
        (pos + 1) * c.vocab_size <= usize::MAX,
    ensures
        logit_row(c, pos, target).target is Some == (target < c.vocab_size),
        logit_row(c, pos, target).target matches Some(t) ==> t == target,
        logit_row(c, 0, target).start == 0,
        logit_row(c, pos, target).start == pos * c.vocab_size,
{
    let v = c.vocab_size as int;
    assert(0 <= pos * v <= (pos + 1) * v) by (nonlinear_arith)
        requires
            0 <= pos,
            0 <= v,
    ;
    assert(0 * v == 0);
}

} // verus!
