//! Compute kernels: shaders, entry points and dispatch sizes.

use vstd::prelude::*;

verus! {

/// A shader source.
#[derive(Clone, Copy, Debug, PartialEq, Eq, Structural)]
pub enum Shader {
    Matmul,
    Elementwise,
    Scale,
    Softmax,
    Layernorm,
    Embedding,
    AttentionQkv,
    AttentionScore,
    LoraA,
    LoraB,
    LossPerSample,
    LossReduce,
    Optimizer,
}

/// A compute kernel: one entry point of a shader.
#[derive(Clone, Copy, Debug, PartialEq, Eq, Structural)]
pub enum Kernel {
    Matmul,
    Add,
    Multiply,
    Relu,
    Copy,
    Scale,
    Softmax,
    Rmsnorm,
    EmbeddingLookup,
    QkvProjection,
    AttentionScore,
    LoraAForward,
    LoraBForward,
    CrossEntropyPerSample,
    CrossEntropyReduce,
    AdamwStep,
}

impl Kernel {
    /// The shader that holds a kernel. The elementwise kernels share one.
    pub open spec fn source(self) -> Shader {
        match self {
            Kernel::Matmul => Shader::Matmul,
            Kernel::Add => Shader::Elementwise,
            Kernel::Multiply => Shader::Elementwise,
            Kernel::Relu => Shader::Elementwise,
            Kernel::Copy => Shader::Elementwise,
            Kernel::Scale => Shader::Scale,
            Kernel::Softmax => Shader::Softmax,
            Kernel::Rmsnorm => Shader::Layernorm,
            Kernel::EmbeddingLookup => Shader::Embedding,
            Kernel::QkvProjection => Shader::AttentionQkv,
            Kernel::AttentionScore => Shader::AttentionScore,
            Kernel::LoraAForward => Shader::LoraA,
            Kernel::LoraBForward => Shader::LoraB,
            Kernel::CrossEntropyPerSample => Shader::LossPerSample,
            Kernel::CrossEntropyReduce => Shader::LossReduce,
            Kernel::AdamwStep => Shader::Optimizer,
        }
    }

    /// The name of a kernel's entry point.
    pub open spec fn entry(self) -> Seq<char> {
        match self {
            Kernel::Matmul => "matmul_tiled"@,
            Kernel::Add => "add"@,
            Kernel::Multiply => "multiply"@,
            Kernel::Relu => "relu"@,
            Kernel::Copy => "copy"@,
            Kernel::Scale => "scale"@,
            Kernel::Softmax => "softmax"@,
            Kernel::Rmsnorm => "rmsnorm"@,
            Kernel::EmbeddingLookup => "embedding_lookup"@,
            Kernel::QkvProjection => "qkv_projection"@,
            Kernel::AttentionScore => "attention_score"@,
            Kernel::LoraAForward => "lora_a_forward"@,
            Kernel::LoraBForward => "lora_b_forward"@,
            Kernel::CrossEntropyPerSample => "cross_entropy_per_sample"@,
            Kernel::CrossEntropyReduce => "cross_entropy_reduce"@,
            Kernel::AdamwStep => "adamw_step"@,
        }
    }

    /// The label of a kernel's pipeline.
    pub open spec fn tag(self) -> Seq<char> {
        match self {
            Kernel::Matmul => "matmul"@,
            Kernel::CrossEntropyPerSample => "ce_per_sample"@,
            Kernel::CrossEntropyReduce => "ce_reduce"@,
            Kernel::AdamwStep => "adamw"@,
            _ => self.entry(),
        }
    }

    /// The shader that holds this kernel.
    pub fn shader(&self) -> (s: Shader)
        ensures
            s == self.source(),
    {
        match self {
            Kernel::Matmul => Shader::Matmul,
            Kernel::Add => Shader::Elementwise,
            Kernel::Multiply => Shader::Elementwise,
            Kernel::Relu => Shader::Elementwise,
            Kernel::Copy => Shader::Elementwise,
            Kernel::Scale => Shader::Scale,
            Kernel::Softmax => Shader::Softmax,
            Kernel::Rmsnorm => Shader::Layernorm,
            Kernel::EmbeddingLookup => Shader::Embedding,
            Kernel::QkvProjection => Shader::AttentionQkv,
            Kernel::AttentionScore => Shader::AttentionScore,
            Kernel::LoraAForward => Shader::LoraA,
            Kernel::LoraBForward => Shader::LoraB,
            Kernel::CrossEntropyPerSample => Shader::LossPerSample,
            Kernel::CrossEntropyReduce => Shader::LossReduce,
            Kernel::AdamwStep => Shader::Optimizer,
        }
    }

    /// The name of this kernel's entry point.
    pub fn entry_point(&self) -> (s: &'static str)
        ensures
            s@ == self.entry(),
    {
        match self {
            Kernel::Matmul => "matmul_tiled",
            Kernel::Add => "add",
            Kernel::Multiply => "multiply",
            Kernel::Relu => "relu",
            Kernel::Copy => "copy",
            Kernel::Scale => "scale",
            Kernel::Softmax => "softmax",
            Kernel::Rmsnorm => "rmsnorm",
            Kernel::EmbeddingLookup => "embedding_lookup",
            Kernel::QkvProjection => "qkv_projection",
            Kernel::AttentionScore => "attention_score",
            Kernel::LoraAForward => "lora_a_forward",
            Kernel::LoraBForward => "lora_b_forward",
            Kernel::CrossEntropyPerSample => "cross_entropy_per_sample",
            Kernel::CrossEntropyReduce => "cross_entropy_reduce",
            Kernel::AdamwStep => "adamw_step",
        }
    }

    /// The label of this kernel's pipeline.
    pub fn label(&self) -> (s: &'static str)
        ensures
            s@ == self.tag(),
    {
        match self {
            Kernel::Matmul => "matmul",
            Kernel::CrossEntropyPerSample => "ce_per_sample",
            Kernel::CrossEntropyReduce => "ce_reduce",
            Kernel::AdamwStep => "adamw",
            _ => self.entry_point(),
        }
    }
}

/// The kernels whose pipelines training needs, in the order they are created.
pub struct GpuPipelines {
    pub kernels: Vec<Kernel>,
}

impl GpuPipelines {
    /// All compute kernels.
    pub fn new() -> (p: GpuPipelines)
        ensures
            p.kernels@ == seq![
                Kernel::Matmul,
                Kernel::Add,
                Kernel::Multiply,
                Kernel::Relu,
                Kernel::Copy,
                Kernel::Scale,
                Kernel::Softmax,
                Kernel::Rmsnorm,
                Kernel::EmbeddingLookup,
                Kernel::QkvProjection,
                Kernel::AttentionScore,
                Kernel::LoraAForward,
                Kernel::LoraBForward,
                Kernel::CrossEntropyPerSample,
                Kernel::CrossEntropyReduce,
                Kernel::AdamwStep,
            ],
    {
        let mut kernels: Vec<Kernel> = Vec::new();
        kernels.push(Kernel::Matmul);
        kernels.push(Kernel::Add);
        kernels.push(Kernel::Multiply);
        kernels.push(Kernel::Relu);
        kernels.push(Kernel::Copy);
        kernels.push(Kernel::Scale);
        kernels.push(Kernel::Softmax);
        kernels.push(Kernel::Rmsnorm);
        kernels.push(Kernel::EmbeddingLookup);
        kernels.push(Kernel::QkvProjection);
        kernels.push(Kernel::AttentionScore);
        kernels.push(Kernel::LoraAForward);
        kernels.push(Kernel::LoraBForward);
        kernels.push(Kernel::CrossEntropyPerSample);
        kernels.push(Kernel::CrossEntropyReduce);
        kernels.push(Kernel::AdamwStep);
        GpuPipelines { kernels }
    }
}

/// `total / per` rounded up.
pub open spec fn groups(total: int, per: int) -> int {
    (total + per - 1) / per
}

/// Number of workgroups that cover `total` items.
///
/// The count is cut to 32 bits.
pub fn dispatch_count(total: usize, workgroup_size: usize) -> (n: u32)
    requires
        workgroup_size > 0,
    ensures
        n == groups(total as int, workgroup_size as int) as u32,
{
    let whole: usize = total / workgroup_size;
    let rest: usize = total % workgroup_size;
    proof {
        let t = total as int;
        let w = workgroup_size as int;
        vstd::arithmetic::div_mod::lemma_fundamental_div_mod(t, w);
        let q = t / w;
        let r = t % w;
        if r == 0 {
            vstd::arithmetic::div_mod::lemma_fundamental_div_mod_converse(
                t + w - 1,
                w,
                q,
                w - 1,
            );
        } else {
            assert(w * (q + 1) == w * q + w) by (nonlinear_arith);
            vstd::arithmetic::div_mod::lemma_fundamental_div_mod_converse(
                t + w - 1,
                w,
                q + 1,
                r - 1,
            );
        }
        assert(q <= t) by (nonlinear_arith)
            requires
                q == t / w,
                w >= 1,
                t >= 0,
        ;
        if workgroup_size == 1 {
            assert(r == 0);
        } else {
            assert(q < usize::MAX) by (nonlinear_arith)
                requires
                    q == t / w,
                    w >= 2,
                    0 <= t <= usize::MAX,
            ;
        }
    }
    if rest == 0 {
        whole as u32
    } else {
        (whole + 1) as u32
    }
}

/// Dispatch for 2D workgroups.
pub fn dispatch_2d(rows: usize, cols: usize, wg_x: usize, wg_y: usize) -> (d: [u32; 3])
    requires
        wg_x > 0,
        wg_y > 0,
    ensures
        d@ == seq![
            groups(rows as int, wg_x as int) as u32,
            groups(cols as int, wg_y as int) as u32,
            1u32,
        ],
{
    let d: [u32; 3] = [dispatch_count(rows, wg_x), dispatch_count(cols, wg_y), 1];
    assert(d@ =~= seq![
        groups(rows as int, wg_x as int) as u32,
        groups(cols as int, wg_y as int) as u32,
        1u32,
    ]);
    d
}

/// Dispatch for 1D workgroups.
pub fn dispatch_1d(total: usize, workgroup_size: usize) -> (d: [u32; 3])
    requires
        workgroup_size > 0,
    ensures
        d@ == seq![groups(total as int, workgroup_size as int) as u32, 1u32, 1u32],
{
    let d: [u32; 3] = [dispatch_count(total, workgroup_size), 1, 1];
    assert(d@ =~= seq![groups(total as int, workgroup_size as int) as u32, 1u32, 1u32]);
    d
}

/// The groups cover every item, and one group fewer would not.
pub proof fn law_groups_cover(total: int, per: int)
    requires
        total >= 0,
        per > 0,
    ensures
        total <= groups(total, per) * per,
        total > 0 ==> (groups(total, per) - 1) * per < total,
{
    let x = total + per - 1;
    let g = x / per;
    vstd::arithmetic::div_mod::lemma_fundamental_div_mod(x, per);
    assert(g * per == per * g) by (nonlinear_arith);
    assert((g - 1) * per == g * per - per) by (nonlinear_arith);
}

/// No two kernels have one entry point, nor one label.
pub proof fn law_kernels_have_names_of_their_own(a: Kernel, b: Kernel)
    ensures
        a.entry() == b.entry() ==> a == b,
        a.tag() == b.tag() ==> a == b,
{
    reveal_strlit("matmul_tiled");
    reveal_strlit("add");
    reveal_strlit("multiply");
    reveal_strlit("relu");
    reveal_strlit("copy");
    reveal_strlit("scale");
    reveal_strlit("softmax");
    reveal_strlit("rmsnorm");
    reveal_strlit("embedding_lookup");
    reveal_strlit("qkv_projection");
    reveal_strlit("attention_score");
    reveal_strlit("lora_a_forward");
    reveal_strlit("lora_b_forward");
    reveal_strlit("cross_entropy_per_sample");
    reveal_strlit("cross_entropy_reduce");
    reveal_strlit("adamw_step");
    reveal_strlit("matmul");
    reveal_strlit("ce_per_sample");
    reveal_strlit("ce_reduce");
    reveal_strlit("adamw");
    assert("matmul_tiled"@.len() == 12);
    assert("add"@.len() == 3);
    assert("multiply"@.len() == 8);
    assert("relu"@.len() == 4);
    assert("copy"@.len() == 4);
    assert("scale"@.len() == 5);
    assert("softmax"@.len() == 7);
    assert("rmsnorm"@.len() == 7);
    assert("embedding_lookup"@.len() == 16);
    assert("qkv_projection"@.len() == 14);
    assert("attention_score"@.len() == 15);
    assert("lora_a_forward"@.len() == 14);
    assert("lora_b_forward"@.len() == 14);
    assert("cross_entropy_per_sample"@.len() == 24);
    assert("cross_entropy_reduce"@.len() == 20);
    assert("adamw_step"@.len() == 10);
    assert("matmul"@.len() == 6);
    assert("ce_per_sample"@.len() == 13);
    assert("ce_reduce"@.len() == 9);
    assert("adamw"@.len() == 5);
    assert("relu"@[0] != "copy"@[0]);
    assert("softmax"@[0] != "rmsnorm"@[0]);
    assert("scale"@[0] != "adamw"@[0]);
    assert("qkv_projection"@[0] != "lora_a_forward"@[0]);
    assert("qkv_projection"@[0] != "lora_b_forward"@[0]);
    assert("lora_a_forward"@[5] != "lora_b_forward"@[5]);
}

} // verus!
