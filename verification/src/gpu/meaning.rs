//! What the plan of a forward pass computes, given what the kernels compute.

use vstd::prelude::*;

use crate::gpu::forward;
use crate::gpu::forward::GpuForwardPass;
use crate::gpu::kernels::Kernel;
use crate::gpu::lora;
use crate::gpu::lora::LoraTarget;
use crate::gpu::plan::Bindings;
use crate::gpu::plan::BufferId;
use crate::gpu::plan::MatmulParams;
use crate::gpu::plan::Params;
use crate::gpu::plan::Step;

verus! {

/// What a device computes: the result of a kernel on its operands, and an embedding.
pub struct Device {
    pub op: spec_fn(Kernel, Seq<Seq<int>>, Params) -> Seq<int>,
    pub embed: spec_fn(usize, usize) -> Seq<int>,
}

/// How many items a kernel writes.
pub open spec fn result_len(p: Params) -> int {
    match p {
        Params::Elementwise { count } => count as int,
        Params::Layernorm { batch_seq, dim } => batch_seq * dim,
        Params::LoraA { rank, .. } => rank as int,
        Params::LoraB { out_dim, .. } => out_dim as int,
        Params::AttnScore { head_dim, .. } => head_dim as int,
        Params::Matmul { sizes } => sizes.m * sizes.p,
        _ => 0,
    }
}

impl Device {
    /// Every kernel writes as many items as its parameters say.
    pub open spec fn wf(self) -> bool {
        forall|k: Kernel, x: Seq<Seq<int>>, p: Params|
            (#[trigger] (self.op)(k, x, p)).len() == result_len(p)
    }
}

/// A buffer's contents with a part of them written over.
pub open spec fn overlay(s: Seq<int>, at: int, r: Seq<int>) -> Seq<int> {
    Seq::new(
        s.len(),
        |i: int|
            if at <= i < at + r.len() {
                r[i - at]
            } else {
                s[i]
            },
    )
}

/// What a kernel reads.
pub open spec fn operands(st: Map<BufferId, Seq<int>>, k: Kernel, b: Bindings, p: Params) -> Seq<
    Seq<int>,
> {
    match p {
        Params::Elementwise { count } => if k is Add {
            seq![st[b.slot(0)->0].take(count as int), st[b.slot(1)->0].take(count as int)]
        } else {
            seq![st[b.slot(0)->0].take(count as int)]
        },
        Params::Layernorm { batch_seq, dim } => seq![st[b.slot(0)->0].take(batch_seq * dim)],
        Params::LoraA { n_embd, .. } => seq![
            st[b.slot(0)->0],
            st[b.slot(1)->0].take(n_embd as int),
        ],
        Params::LoraB { n_embd, rank, .. } => seq![
            st[b.slot(0)->0],
            st[b.slot(1)->0],
            st[b.slot(2)->0].take(n_embd as int),
            st[b.slot(3)->0].take(rank as int),
        ],
        Params::AttnScore { head_dim, .. } => seq![
            st[b.slot(0)->0].take(head_dim as int),
            st[b.slot(1)->0],
            st[b.slot(2)->0],
        ],
        Params::Matmul { sizes } => seq![
            st[b.slot(0)->0],
            st[b.slot(1)->0].take(sizes.n * sizes.p),
        ],
        _ => seq![],
    }
}

/// The buffer that a kernel writes.
pub open spec fn target_slot(k: Kernel, b: Bindings) -> BufferId {
    match k {
        Kernel::Rmsnorm => b.slot(0)->0,
        Kernel::AttentionScore => b.slot(3)->0,
        Kernel::LoraBForward => b.slot(4)->0,
        _ => b.slot(2)->0,
    }
}

/// The buffers after a step.
pub open spec fn after(dev: Device, st: Map<BufferId, Seq<int>>, s: Step) -> Map<
    BufferId,
    Seq<int>,
> {
    match s {
        Step::Embed { token, pos } => st.insert(BufferId::Hidden, (dev.embed)(token, pos)),
        Step::Zero { buffer, count } => st.insert(
            buffer,
            overlay(st[buffer], 0, Seq::new(count as nat, |i: int| 0int)),
        ),
        Step::Dispatch { kernel, bound, params, groups: _ } => {
            let x = operands(st, kernel, bound, params);
            let r = if kernel is Copy {
                x[0]
            } else {
                (dev.op)(kernel, x, params)
            };
            let to = target_slot(kernel, bound);
            st.insert(to, overlay(st[to], 0, r))
        },
        Step::Copy { src, src_offset, dst, dst_offset, size } => st.insert(
            dst,
            overlay(
                st[dst],
                dst_offset as int / 4,
                st[src].subrange(src_offset as int / 4, (src_offset + size) / 4),
            ),
        ),
    }
}

/// The buffers after a plan.
pub open spec fn run(dev: Device, st: Map<BufferId, Seq<int>>, steps: Seq<Step>) -> Map<
    BufferId,
    Seq<int>,
>
    decreases steps.len(),
{
    if steps.len() == 0 {
        st
    } else {
        after(dev, run(dev, st, steps.drop_last()), steps.last())
    }
}

proof fn lemma_run_concat(dev: Device, st: Map<BufferId, Seq<int>>, a: Seq<Step>, b: Seq<Step>)
    ensures
        run(dev, st, a + b) == run(dev, run(dev, st, a), b),
    decreases b.len(),
{
    if b.len() == 0 {
        assert(a + b =~= a);
    } else {
        assert((a + b).drop_last() =~= a + b.drop_last());
        lemma_run_concat(dev, st, a, b.drop_last());
    }
}

proof fn lemma_run_one(dev: Device, st: Map<BufferId, Seq<int>>, s: Step)
    ensures
        run(dev, st, seq![s]) == after(dev, st, s),
{
    reveal_with_fuel(run, 2);
    assert(seq![s].drop_last() =~= seq![]);
}

proof fn lemma_run_two(dev: Device, st: Map<BufferId, Seq<int>>, s: Step, t: Step)
    ensures
        run(dev, st, seq![s, t]) == after(dev, after(dev, st, s), t),
{
    lemma_run_one(dev, st, s);
    assert(seq![s, t].drop_last() =~= seq![s]);
}

/// Every buffer has its size.
pub open spec fn stored(f: GpuForwardPass, st: Map<BufferId, Seq<int>>) -> bool {
    forall|id: BufferId| (#[trigger] st[id]).len() == forward::items(f, id)
}

/// A device, buffers and a position that a plan can be run with.
pub open spec fn runnable(
    dev: Device,
    f: GpuForwardPass,
    st: Map<BufferId, Seq<int>>,
    pos: int,
) -> bool {
    &&& dev.wf()
    &&& f.geometry(pos)
    &&& forward::small(f)
    &&& stored(f, st)
}

/// A vector of the embedding's size, normed.
pub open spec fn normed(dev: Device, f: GpuForwardPass, x: Seq<int>) -> Seq<int> {
    (dev.op)(
        Kernel::Rmsnorm,
        seq![x],
        Params::Layernorm { batch_seq: 1, dim: f.config.n_embd as u32 },
    )
}

/// The sum of two vectors of the embedding's size.
pub open spec fn added(dev: Device, f: GpuForwardPass, x: Seq<int>, y: Seq<int>) -> Seq<int> {
    (dev.op)(Kernel::Add, seq![x, y], Params::Elementwise { count: f.config.n_embd as u32 })
}

/// A hidden vector of the MLP with nothing below zero.
pub open spec fn rectified(dev: Device, f: GpuForwardPass, x: Seq<int>) -> Seq<int> {
    (dev.op)(Kernel::Relu, seq![x], Params::Elementwise { count: f.config.mlp_hidden as u32 })
}

/// A layer's projection with its adapter: the weights on the input, and the adapter's B on its A
/// on the input.
pub open spec fn projected(
    dev: Device,
    f: GpuForwardPass,
    st: Map<BufferId, Seq<int>>,
    layer: usize,
    target: LoraTarget,
    x: Seq<int>,
) -> Seq<int> {
    let inputs = lora::inputs_of(f.config, target) as u32;
    let low = (dev.op)(
        Kernel::LoraAForward,
        seq![st[BufferId::LoraA { layer, target }], x],
        Params::LoraA { rank: f.rank as u32, n_embd: inputs },
    );
    (dev.op)(
        Kernel::LoraBForward,
        seq![
            st[BufferId::Weight { layer, target }],
            st[BufferId::LoraB { layer, target }],
            x,
            low,
        ],
        Params::LoraB {
            out_dim: lora::outputs_of(f.config, target) as u32,
            n_embd: inputs,
            rank: f.rank as u32,
            alpha: f.alpha,
        },
    )
}

/// The outputs of the first `heads` heads, each at its own place: the attention of its part of the
/// query to the keys and values of its group, in all rows up to the position.
pub open spec fn attended(
    dev: Device,
    f: GpuForwardPass,
    q: Seq<int>,
    keys: Seq<int>,
    values: Seq<int>,
    pos: int,
    heads: nat,
) -> Seq<int>
    decreases heads,
{
    if heads == 0 {
        Seq::new(f.config.n_embd as nat, |i: int| 0int)
    } else {
        let hd = f.config.head_dim as int;
        let h = heads - 1;
        let out = (dev.op)(
            Kernel::AttentionScore,
            seq![q.subrange(h * hd, h * hd + hd), keys, values],
            Params::AttnScore {
                head_dim: hd as u32,
                pos: pos as u32,
                scale: f.scale,
                kv_offset: (f.group_of(h) * hd) as u32,
                kv_stride: lora::kv_dim(f.config) as u32,
            },
        );
        overlay(attended(dev, f, q, keys, values, pos, (heads - 1) as nat), h * hd, out)
    }
}

/// A layer's cached keys with those of the position in its row.
pub open spec fn keys_with(
    dev: Device,
    f: GpuForwardPass,
    st: Map<BufferId, Seq<int>>,
    layer: usize,
    pos: int,
    h: Seq<int>,
) -> Seq<int> {
    overlay(
        st[BufferId::KeyCache { layer }],
        pos * lora::kv_dim(f.config),
        projected(dev, f, st, layer, LoraTarget::K, normed(dev, f, normed(dev, f, h))),
    )
}

/// A layer's cached values with those of the position in its row.
pub open spec fn values_with(
    dev: Device,
    f: GpuForwardPass,
    st: Map<BufferId, Seq<int>>,
    layer: usize,
    pos: int,
    h: Seq<int>,
) -> Seq<int> {
    overlay(
        st[BufferId::ValueCache { layer }],
        pos * lora::kv_dim(f.config),
        projected(dev, f, st, layer, LoraTarget::V, normed(dev, f, normed(dev, f, h))),
    )
}

/// What the heads of a layer give for a hidden vector.
pub open spec fn heads_of(
    dev: Device,
    f: GpuForwardPass,
    st: Map<BufferId, Seq<int>>,
    layer: usize,
    pos: int,
    h: Seq<int>,
) -> Seq<int> {
    attended(
        dev,
        f,
        projected(dev, f, st, layer, LoraTarget::Q, normed(dev, f, normed(dev, f, h))),
        keys_with(dev, f, st, layer, pos, h),
        values_with(dev, f, st, layer, pos, h),
        pos,
        f.config.n_head as nat,
    )
}

/// The hidden vector between attention and MLP: the output projection of the heads, with the normed
/// hidden vector as residual.
pub open spec fn between(
    dev: Device,
    f: GpuForwardPass,
    st: Map<BufferId, Seq<int>>,
    layer: usize,
    pos: int,
    h: Seq<int>,
) -> Seq<int> {
    added(
        dev,
        f,
        projected(dev, f, st, layer, LoraTarget::O, heads_of(dev, f, st, layer, pos, h)),
        normed(dev, f, h),
    )
}

/// What the second MLP projection reads.
pub open spec fn mlp_of(
    dev: Device,
    f: GpuForwardPass,
    st: Map<BufferId, Seq<int>>,
    layer: usize,
    r: Seq<int>,
) -> Seq<int> {
    rectified(dev, f, projected(dev, f, st, layer, LoraTarget::Mlp1, normed(dev, f, r)))
}

/// The hidden vector after a layer.
pub open spec fn layer_output(
    dev: Device,
    f: GpuForwardPass,
    st: Map<BufferId, Seq<int>>,
    layer: usize,
    pos: int,
    h: Seq<int>,
) -> Seq<int> {
    let r = between(dev, f, st, layer, pos, h);
    added(
        dev,
        f,
        projected(dev, f, st, layer, LoraTarget::Mlp2, mlp_of(dev, f, st, layer, r)),
        r,
    )
}

proof fn lemma_overlay(s: Seq<int>, at: int, r: Seq<int>)
    ensures
        overlay(s, at, r).len() == s.len(),
        at == 0 && r.len() == s.len() ==> overlay(s, at, r) == r,
        0 <= at && at + r.len() <= s.len() ==> overlay(s, at, r).subrange(at, at + r.len()) == r,
{
    if at == 0 && r.len() == s.len() {
        assert(overlay(s, at, r) =~= r);
    }
    if 0 <= at && at + r.len() <= s.len() {
        assert(overlay(s, at, r).subrange(at, at + r.len()) =~= r);
    }
}

proof fn lemma_norm(dev: Device, f: GpuForwardPass, st: Map<BufferId, Seq<int>>, pos: int)
    requires
        runnable(dev, f, st, pos),
    ensures
        run(dev, st, forward::rmsnorm_steps(BufferId::Hidden, f.config.n_embd as int)) == st.insert(
            BufferId::Hidden,
            normed(dev, f, st[BufferId::Hidden]),
        ),
        stored(f, st.insert(BufferId::Hidden, normed(dev, f, st[BufferId::Hidden]))),
{
    let n = f.config.n_embd as int;
    let h = st[BufferId::Hidden];
    lemma_run_one(dev, st, forward::rmsnorm_steps(BufferId::Hidden, n)[0]);
    assert(forward::rmsnorm_steps(BufferId::Hidden, n) =~= seq![
        forward::rmsnorm_steps(BufferId::Hidden, n)[0],
    ]);
    let one: u32 = 1;
    let dim = f.config.n_embd as u32;
    assert(one * dim == n) by (nonlinear_arith)
        requires
            one == 1,
            dim == n,
    ;
    assert(h.take(n) =~= h);
    lemma_overlay(h, 0, normed(dev, f, h));
}

proof fn lemma_copy(
    dev: Device,
    f: GpuForwardPass,
    st: Map<BufferId, Seq<int>>,
    pos: int,
    src: BufferId,
    dst: BufferId,
    count: int,
)
    requires
        runnable(dev, f, st, pos),
        src != dst,
        forward::items(f, src) == count,
        forward::items(f, dst) == count,
        0 <= count <= u32::MAX,
    ensures
        run(dev, st, forward::copy_steps(src, dst, count)) == st.insert(dst, st[src]),
        stored(f, st.insert(dst, st[src])),
{
    let s = forward::copy_steps(src, dst, count);
    lemma_run_one(dev, st, s[0]);
    assert(s =~= seq![s[0]]);
    assert(st[src].take(count) =~= st[src]);
    lemma_overlay(st[dst], 0, st[src]);
}

/// Buffers that hold the same but for those that an addition into the hidden vector writes.
pub open spec fn same_but_hidden(
    a: Map<BufferId, Seq<int>>,
    b: Map<BufferId, Seq<int>>,
) -> bool {
    forall|id: BufferId| id != BufferId::Hidden && id != BufferId::TempOut ==> #[trigger] a[id] == b[id]
}

proof fn lemma_add(
    dev: Device,
    f: GpuForwardPass,
    st: Map<BufferId, Seq<int>>,
    pos: int,
    b: BufferId,
)
    requires
        runnable(dev, f, st, pos),
        b == BufferId::Residual || b == BufferId::Residual2,
    ensures
        ({
            let e = run(
                dev,
                st,
                forward::add_steps(BufferId::Hidden, b, BufferId::Hidden, f.config.n_embd as int),
            );
            &&& e[BufferId::Hidden] == added(dev, f, st[BufferId::Hidden], st[b])
            &&& same_but_hidden(e, st)
            &&& stored(f, e)
        }),
{
    let n = f.config.n_embd as int;
    let s = forward::add_steps(BufferId::Hidden, b, BufferId::Hidden, n);
    lemma_run_two(dev, st, s[0], s[1]);
    assert(s =~= seq![s[0], s[1]]);
    assert(st[BufferId::Hidden].take(n) =~= st[BufferId::Hidden]);
    assert(st[b].take(n) =~= st[b]);
    let r = added(dev, f, st[BufferId::Hidden], st[b]);
    let mid = after(dev, st, s[0]);
    lemma_overlay(st[BufferId::TempOut], 0, r);
    assert(mid[BufferId::TempOut].subrange(0, n) == r);
    lemma_overlay(st[BufferId::Hidden], 0, r);
}

proof fn lemma_relu(dev: Device, f: GpuForwardPass, st: Map<BufferId, Seq<int>>, pos: int)
    requires
        runnable(dev, f, st, pos),
    ensures
        ({
            let e = run(
                dev,
                st,
                forward::relu_steps(BufferId::MlpHidden, f.config.mlp_hidden as int),
            );
            &&& e[BufferId::MlpHidden] == rectified(dev, f, st[BufferId::MlpHidden])
            &&& forall|id: BufferId|
                id != BufferId::MlpHidden && id != BufferId::TempOut ==> #[trigger] e[id] == st[id]
            &&& stored(f, e)
        }),
{
    let n = f.config.mlp_hidden as int;
    let s = forward::relu_steps(BufferId::MlpHidden, n);
    lemma_run_two(dev, st, s[0], s[1]);
    assert(s =~= seq![s[0], s[1]]);
    let x = st[BufferId::MlpHidden];
    assert(x.take(n) =~= x);
    let r = rectified(dev, f, x);
    let mid = after(dev, st, s[0]);
    lemma_overlay(st[BufferId::TempOut], 0, r);
    assert(mid[BufferId::TempOut].subrange(0, n) == r);
    lemma_overlay(x, 0, r);
}

proof fn lemma_project(
    dev: Device,
    f: GpuForwardPass,
    st: Map<BufferId, Seq<int>>,
    pos: int,
    layer: usize,
    target: LoraTarget,
    input: BufferId,
    output: BufferId,
)
    requires
        runnable(dev, f, st, pos),
        input != output,
        input is Hidden || input is AttnOut || input is MlpHidden,
        output is Hidden || output is MlpHidden || output is Q || output is K || output is V,
        forward::items(f, input) == lora::inputs_of(f.config, target),
        lora::outputs_of(f.config, target) <= forward::items(f, output),
    ensures
        ({
            let e = run(
                dev,
                st,
                f.lora_steps(
                    layer,
                    target,
                    input,
                    output,
                    lora::outputs_of(f.config, target),
                    lora::inputs_of(f.config, target),
                ),
            );
            let r = projected(dev, f, st, layer, target, st[input]);
            &&& e[output] == overlay(st[output], 0, r)
            &&& r.len() == lora::outputs_of(f.config, target)
            &&& e[BufferId::LoraInput { layer, target }] == st[input]
            &&& forall|id: BufferId|
                id != output && id != (BufferId::LoraInput { layer, target }) && id != (
                BufferId::LoraIntermediate { layer, target }) ==> #[trigger] e[id] == st[id]
            &&& stored(f, e)
        }),
{
    let (i, o) = (lora::inputs_of(f.config, target), lora::outputs_of(f.config, target));
    let s = f.lora_steps(layer, target, input, output, o, i);
    let kept = BufferId::LoraInput { layer, target };
    let inter = BufferId::LoraIntermediate { layer, target };
    let c = forward::copy_steps(input, kept, i);
    lemma_kv_dim(f);
    lemma_copy(dev, f, st, pos, input, kept, i);
    let t = seq![s[1], s[2]];
    assert(c.len() == 1);
    assert(s =~= c + t);
    lemma_run_concat(dev, st, c, t);
    let st1 = st.insert(kept, st[input]);
    lemma_run_two(dev, st1, s[1], s[2]);
    assert(st1[input].take(i) =~= st[input]);
    let low = (dev.op)(
        Kernel::LoraAForward,
        seq![st[BufferId::LoraA { layer, target }], st[input]],
        Params::LoraA { rank: f.rank as u32, n_embd: i as u32 },
    );
    lemma_overlay(st1[inter], 0, low);
    let st2 = after(dev, st1, s[1]);
    assert(st2[inter] == low);
    assert(low.take(f.rank as int) =~= low);
    assert(st2[input].take(i) =~= st[input]);
}

proof fn lemma_kv_dim(f: GpuForwardPass)
    ensures
        0 <= lora::kv_dim(f.config),
{
    let (a, b) = (f.config.n_kv_head as int, f.config.head_dim as int);
    assert(0 <= a * b) by (nonlinear_arith)
        requires
            0 <= a,
            0 <= b,
    ;
}

/// What the first part of a layer leaves: the residual, the twice normed vector, and its
/// projections.
spec fn qkv_done(
    dev: Device,
    f: GpuForwardPass,
    st: Map<BufferId, Seq<int>>,
    e: Map<BufferId, Seq<int>>,
    layer: usize,
) -> bool {
    let x1 = normed(dev, f, st[BufferId::Hidden]);
    let x = normed(dev, f, x1);
    let kvd = lora::kv_dim(f.config);
    &&& e[BufferId::Residual] == x1
    &&& e[BufferId::Q] == projected(dev, f, st, layer, LoraTarget::Q, x)
    &&& e[BufferId::K].subrange(0, kvd) == projected(dev, f, st, layer, LoraTarget::K, x)
    &&& e[BufferId::V].subrange(0, kvd) == projected(dev, f, st, layer, LoraTarget::V, x)
    &&& e[BufferId::LoraInput { layer, target: LoraTarget::Q }] == x
    &&& e[BufferId::LoraInput { layer, target: LoraTarget::K }] == x
    &&& e[BufferId::LoraInput { layer, target: LoraTarget::V }] == x
    &&& forall|id: BufferId| #[trigger]
        e[id] == st[id] || id is Hidden || id is Residual || id is Q || id is K || id is V
            || of_targets(id, layer, seq![LoraTarget::Q, LoraTarget::K, LoraTarget::V])
    &&& stored(f, e)
}

/// A buffer that the adapters of some projections of a layer keep.
pub open spec fn of_targets(id: BufferId, layer: usize, targets: Seq<LoraTarget>) -> bool {
    match id {
        BufferId::LoraInput { layer: l, target } => l == layer && targets.contains(target),
        BufferId::LoraIntermediate { layer: l, target } => l == layer && targets.contains(target),
        _ => false,
    }
}

proof fn lemma_qkv(
    dev: Device,
    f: GpuForwardPass,
    st: Map<BufferId, Seq<int>>,
    layer: usize,
    pos: int,
)
    requires
        runnable(dev, f, st, pos),
    ensures
        qkv_done(dev, f, st, run(dev, st, f.qkv_steps(layer)), layer),
{
    let n = f.config.n_embd as int;
    let kvd = lora::kv_dim(f.config);
    lemma_kv_dim(f);
    let norm = forward::rmsnorm_steps(BufferId::Hidden, n);
    let keep = forward::copy_steps(BufferId::Hidden, BufferId::Residual, n);
    let q = f.lora_steps(layer, LoraTarget::Q, BufferId::Hidden, BufferId::Q, n, n);
    let k = f.lora_steps(layer, LoraTarget::K, BufferId::Hidden, BufferId::K, kvd, n);
    let v = f.lora_steps(layer, LoraTarget::V, BufferId::Hidden, BufferId::V, kvd, n);
    lemma_run_concat(dev, st, norm + keep + norm + q + k, v);
    lemma_run_concat(dev, st, norm + keep + norm + q, k);
    lemma_run_concat(dev, st, norm + keep + norm, q);
    lemma_run_concat(dev, st, norm + keep, norm);
    lemma_run_concat(dev, st, norm, keep);
    let x1 = normed(dev, f, st[BufferId::Hidden]);
    let x = normed(dev, f, x1);
    let s1 = run(dev, st, norm);
    lemma_norm(dev, f, st, pos);
    let s2 = run(dev, s1, keep);
    lemma_copy(dev, f, s1, pos, BufferId::Hidden, BufferId::Residual, n);
    let s3 = run(dev, s2, norm);
    lemma_norm(dev, f, s2, pos);
    assert(s3[BufferId::Hidden] == x && s3[BufferId::Residual] == x1);
    let s4 = run(dev, s3, q);
    lemma_project(dev, f, s3, pos, layer, LoraTarget::Q, BufferId::Hidden, BufferId::Q);
    let s5 = run(dev, s4, k);
    lemma_project(dev, f, s4, pos, layer, LoraTarget::K, BufferId::Hidden, BufferId::K);
    let s6 = run(dev, s5, v);
    lemma_project(dev, f, s5, pos, layer, LoraTarget::V, BufferId::Hidden, BufferId::V);
    lemma_overlay(s3[BufferId::Q], 0, projected(dev, f, st, layer, LoraTarget::Q, x));
    lemma_overlay(s4[BufferId::K], 0, projected(dev, f, st, layer, LoraTarget::K, x));
    lemma_overlay(s5[BufferId::V], 0, projected(dev, f, st, layer, LoraTarget::V, x));
    let ts = seq![LoraTarget::Q, LoraTarget::K, LoraTarget::V];
    assert(ts[0] == LoraTarget::Q && ts[1] == LoraTarget::K && ts[2] == LoraTarget::V);
    assert(ts.contains(LoraTarget::Q) && ts.contains(LoraTarget::K) && ts.contains(LoraTarget::V));
}

proof fn lemma_heads(
    dev: Device,
    f: GpuForwardPass,
    st: Map<BufferId, Seq<int>>,
    layer: usize,
    pos: int,
    heads: nat,
)
    requires
        runnable(dev, f, st, pos),
        heads <= f.config.n_head,
        st[BufferId::AttnOut] == Seq::new(f.config.n_embd as nat, |i: int| 0int),
    ensures
        ({
            let e = run(dev, st, f.heads_steps(layer, heads, pos));
            &&& e[BufferId::AttnOut] == attended(
                dev,
                f,
                st[BufferId::Q],
                st[BufferId::KeyCache { layer }],
                st[BufferId::ValueCache { layer }],
                pos,
                heads,
            )
            &&& forall|id: BufferId| #[trigger]
                e[id] == st[id] || id is AttnOut || id is HeadQuery || id is HeadOutput
            &&& stored(f, e)
        }),
    decreases heads,
{
    if heads > 0 {
        let h = heads - 1;
        let hd = f.config.head_dim as int;
        let before = f.heads_steps(layer, (heads - 1) as nat, pos);
        let own = f.head_steps(layer, h, pos);
        lemma_heads(dev, f, st, layer, pos, (heads - 1) as nat);
        lemma_run_concat(dev, st, before, own);
        lemma_head_place(f, h);
        let s0 = run(dev, st, before);
        assert(own =~= seq![own[0], own[1]] + seq![own[2]]);
        lemma_run_concat(dev, s0, seq![own[0], own[1]], seq![own[2]]);
        lemma_run_two(dev, s0, own[0], own[1]);
        let s1 = after(dev, s0, own[0]);
        let s2 = after(dev, s1, own[1]);
        lemma_run_one(dev, s2, own[2]);
        let id = BufferId::HeadQuery { head: h as usize };
        let out_id = BufferId::HeadOutput { head: h as usize };
        let q = st[BufferId::Q].subrange(h * hd, h * hd + hd);
        assert(s1[id] == q) by {
            lemma_overlay(s0[id], 0, q);
        }
        assert(q.take(hd) =~= q);
        let out = (dev.op)(
            Kernel::AttentionScore,
            seq![q, st[BufferId::KeyCache { layer }], st[BufferId::ValueCache { layer }]],
            Params::AttnScore {
                head_dim: hd as u32,
                pos: pos as u32,
                scale: f.scale,
                kv_offset: (f.group_of(h) * hd) as u32,
                kv_stride: lora::kv_dim(f.config) as u32,
            },
        );
        assert(s2[out_id] == out) by {
            lemma_overlay(s1[out_id], 0, out);
        }
        assert(out.subrange(0, hd) =~= out);
    }
}

proof fn lemma_head_place(f: GpuForwardPass, h: int)
    requires
        f.fits(),
        0 <= h < f.config.n_head,
    ensures
        0 <= h * f.config.head_dim,
        h * f.config.head_dim + f.config.head_dim <= f.config.n_head * f.config.head_dim,
        4 * (h * f.config.head_dim + f.config.head_dim) <= usize::MAX,
        h * f.config.head_dim * 4 == 4 * (h * f.config.head_dim),
{
    let (a, b) = (f.config.n_head as int, f.config.head_dim as int);
    assert(0 <= h * b && h * b + b <= a * b) by (nonlinear_arith)
        requires
            0 <= h < a,
            0 <= b,
    ;
}

proof fn lemma_row_place(f: GpuForwardPass, pos: int)
    requires
        f.geometry(pos),
    ensures
        0 <= pos * lora::kv_dim(f.config),
        pos * lora::kv_dim(f.config) + lora::kv_dim(f.config) <= f.config.block_size * lora::kv_dim(
            f.config,
        ),
        0 <= pos * f.config.vocab_size,
        pos * f.config.vocab_size + f.config.vocab_size <= f.seq_len * f.config.vocab_size,
{
    lemma_kv_dim(f);
    let (k, b) = (lora::kv_dim(f.config), f.config.block_size as int);
    assert(0 <= pos * k && pos * k + k <= b * k) by (nonlinear_arith)
        requires
            0 <= pos < b,
            0 <= k,
    ;
    let (v, s) = (f.config.vocab_size as int, f.seq_len as int);
    assert(0 <= pos * v && pos * v + v <= s * v) by (nonlinear_arith)
        requires
            0 <= pos < s,
            0 <= v,
    ;
}

/// What the second part of a layer leaves: the rows of the caches, and the hidden vector with its
/// residual.
spec fn attend_done(
    dev: Device,
    f: GpuForwardPass,
    st: Map<BufferId, Seq<int>>,
    e: Map<BufferId, Seq<int>>,
    layer: usize,
    pos: int,
) -> bool {
    let kvd = lora::kv_dim(f.config);
    let kc = overlay(
        st[BufferId::KeyCache { layer }],
        pos * kvd,
        st[BufferId::K].subrange(0, kvd),
    );
    let vc = overlay(
        st[BufferId::ValueCache { layer }],
        pos * kvd,
        st[BufferId::V].subrange(0, kvd),
    );
    let att = attended(dev, f, st[BufferId::Q], kc, vc, pos, f.config.n_head as nat);
    &&& e[BufferId::KeyCache { layer }] == kc
    &&& e[BufferId::ValueCache { layer }] == vc
    &&& e[BufferId::Hidden] == added(
        dev,
        f,
        projected(dev, f, st, layer, LoraTarget::O, att),
        st[BufferId::Residual],
    )
    &&& e[BufferId::LoraInput { layer, target: LoraTarget::O }] == att
    &&& forall|id: BufferId| #[trigger]
        e[id] == st[id] || id is Hidden || id is TempOut || id is AttnOut || id is HeadQuery
            || id is HeadOutput || id == (BufferId::KeyCache { layer }) || id == (
        BufferId::ValueCache { layer }) || of_targets(id, layer, seq![LoraTarget::O])
    &&& stored(f, e)
}

proof fn lemma_attend(
    dev: Device,
    f: GpuForwardPass,
    st: Map<BufferId, Seq<int>>,
    layer: usize,
    pos: int,
)
    requires
        runnable(dev, f, st, pos),
    ensures
        attend_done(dev, f, st, run(dev, st, f.attend_steps(layer, pos)), layer, pos),
{
    let n = f.config.n_embd as int;
    let kvd = lora::kv_dim(f.config);
    lemma_kv_dim(f);
    lemma_row_place(f, pos);
    let a = forward::copy_items(BufferId::K, BufferId::KeyCache { layer }, pos * kvd, kvd);
    let b = forward::copy_items(BufferId::V, BufferId::ValueCache { layer }, pos * kvd, kvd);
    let zero = Step::Zero { buffer: BufferId::AttnOut, count: f.config.n_embd };
    let heads = f.heads_steps(layer, f.config.n_head as nat, pos);
    let o = f.lora_steps(layer, LoraTarget::O, BufferId::AttnOut, BufferId::Hidden, n, n);
    let plus = forward::add_steps(BufferId::Hidden, BufferId::Residual, BufferId::Hidden, n);
    lemma_run_concat(dev, st, seq![a, b] + f.attention_steps(layer, pos) + o, plus);
    lemma_run_concat(dev, st, seq![a, b] + f.attention_steps(layer, pos), o);
    lemma_run_concat(dev, st, seq![a, b], f.attention_steps(layer, pos));
    lemma_run_two(dev, st, a, b);
    let s1 = run(dev, st, seq![a, b]);
    lemma_run_concat(dev, s1, seq![zero], heads);
    lemma_run_one(dev, s1, zero);
    let s2 = after(dev, s1, zero);
    lemma_overlay(
        s1[BufferId::AttnOut],
        0,
        Seq::new(f.config.n_embd as nat, |i: int| 0int),
    );
    lemma_heads(dev, f, s2, layer, pos, f.config.n_head as nat);
    let s3 = run(dev, s2, heads);
    lemma_project(dev, f, s3, pos, layer, LoraTarget::O, BufferId::AttnOut, BufferId::Hidden);
    let s4 = run(dev, s3, o);
    lemma_overlay(
        s3[BufferId::Hidden],
        0,
        projected(dev, f, s3, layer, LoraTarget::O, s3[BufferId::AttnOut]),
    );
    lemma_add(dev, f, s4, pos, BufferId::Residual);
    let ts = seq![LoraTarget::O];
    assert(ts[0] == LoraTarget::O);
    assert(ts.contains(LoraTarget::O));
}

/// What the last part of a layer leaves.
spec fn mlp_done(
    dev: Device,
    f: GpuForwardPass,
    st: Map<BufferId, Seq<int>>,
    e: Map<BufferId, Seq<int>>,
    layer: usize,
) -> bool {
    let r = st[BufferId::Hidden];
    let m = mlp_of(dev, f, st, layer, r);
    &&& e[BufferId::Hidden] == added(
        dev,
        f,
        projected(dev, f, st, layer, LoraTarget::Mlp2, m),
        r,
    )
    &&& e[BufferId::LoraInput { layer, target: LoraTarget::Mlp1 }] == normed(dev, f, r)
    &&& e[BufferId::LoraInput { layer, target: LoraTarget::Mlp2 }] == m
    &&& forall|id: BufferId| #[trigger]
        e[id] == st[id] || id is Hidden || id is TempOut || id is Residual2 || id is MlpHidden
            || of_targets(id, layer, seq![LoraTarget::Mlp1, LoraTarget::Mlp2])
    &&& stored(f, e)
}

proof fn lemma_mlp(
    dev: Device,
    f: GpuForwardPass,
    st: Map<BufferId, Seq<int>>,
    layer: usize,
    pos: int,
)
    requires
        runnable(dev, f, st, pos),
    ensures
        mlp_done(dev, f, st, run(dev, st, f.mlp_steps(layer)), layer),
{
    let n = f.config.n_embd as int;
    let mlp = f.config.mlp_hidden as int;
    let keep = forward::copy_steps(BufferId::Hidden, BufferId::Residual2, n);
    let norm = forward::rmsnorm_steps(BufferId::Hidden, n);
    let up = f.lora_steps(layer, LoraTarget::Mlp1, BufferId::Hidden, BufferId::MlpHidden, mlp, n);
    let relu = forward::relu_steps(BufferId::MlpHidden, mlp);
    let down = f.lora_steps(layer, LoraTarget::Mlp2, BufferId::MlpHidden, BufferId::Hidden, n, mlp);
    let plus = forward::add_steps(BufferId::Hidden, BufferId::Residual2, BufferId::Hidden, n);
    lemma_run_concat(dev, st, keep + norm + up + relu + down, plus);
    lemma_run_concat(dev, st, keep + norm + up + relu, down);
    lemma_run_concat(dev, st, keep + norm + up, relu);
    lemma_run_concat(dev, st, keep + norm, up);
    lemma_run_concat(dev, st, keep, norm);
    let r = st[BufferId::Hidden];
    lemma_copy(dev, f, st, pos, BufferId::Hidden, BufferId::Residual2, n);
    let s1 = run(dev, st, keep);
    lemma_norm(dev, f, s1, pos);
    let s2 = run(dev, s1, norm);
    lemma_project(dev, f, s2, pos, layer, LoraTarget::Mlp1, BufferId::Hidden, BufferId::MlpHidden);
    let s3 = run(dev, s2, up);
    lemma_overlay(
        s2[BufferId::MlpHidden],
        0,
        projected(dev, f, s2, layer, LoraTarget::Mlp1, s2[BufferId::Hidden]),
    );
    lemma_relu(dev, f, s3, pos);
    let s4 = run(dev, s3, relu);
    lemma_project(dev, f, s4, pos, layer, LoraTarget::Mlp2, BufferId::MlpHidden, BufferId::Hidden);
    let s5 = run(dev, s4, down);
    lemma_overlay(
        s4[BufferId::Hidden],
        0,
        projected(dev, f, s4, layer, LoraTarget::Mlp2, s4[BufferId::MlpHidden]),
    );
    lemma_add(dev, f, s5, pos, BufferId::Residual2);
    let ts = seq![LoraTarget::Mlp1, LoraTarget::Mlp2];
    assert(ts[0] == LoraTarget::Mlp1 && ts[1] == LoraTarget::Mlp2);
    assert(ts.contains(LoraTarget::Mlp1) && ts.contains(LoraTarget::Mlp2));
}

/// What is computed once and read by all positions and layers, and what other layers keep.
pub open spec fn lasting(id: BufferId, layer: usize) -> bool {
    match id {
        BufferId::LmHead => true,
        BufferId::Weight { .. } => true,
        BufferId::LoraA { .. } => true,
        BufferId::LoraB { .. } => true,
        BufferId::Logits => true,
        BufferId::KeyCache { layer: l } => l != layer,
        BufferId::ValueCache { layer: l } => l != layer,
        BufferId::LoraInput { layer: l, .. } => l != layer,
        _ => false,
    }
}

/// A layer attends from the twice normed hidden vector to the keys and values of all positions so
/// far, its own put in place first; adds the output projection to the once normed vector; and adds
/// to that sum its own projection up and, with nothing below zero, down again. The input of each
/// projection is kept for its adapter, and other layers keep what they had.
pub proof fn law_layer_computes(
    dev: Device,
    f: GpuForwardPass,
    st: Map<BufferId, Seq<int>>,
    layer: usize,
    pos: int,
)
    requires
        runnable(dev, f, st, pos),
    ensures
        ({
            let e = run(dev, st, f.layer_steps(layer, pos));
            let h = st[BufferId::Hidden];
            let x = normed(dev, f, normed(dev, f, h));
            let r = between(dev, f, st, layer, pos, h);
            &&& e[BufferId::Hidden] == layer_output(dev, f, st, layer, pos, h)
            &&& e[BufferId::KeyCache { layer }] == keys_with(dev, f, st, layer, pos, h)
            &&& e[BufferId::ValueCache { layer }] == values_with(dev, f, st, layer, pos, h)
            &&& e[BufferId::LoraInput { layer, target: LoraTarget::Q }] == x
            &&& e[BufferId::LoraInput { layer, target: LoraTarget::K }] == x
            &&& e[BufferId::LoraInput { layer, target: LoraTarget::V }] == x
            &&& e[BufferId::LoraInput { layer, target: LoraTarget::O }] == heads_of(
                dev,
                f,
                st,
                layer,
                pos,
                h,
            )
            &&& e[BufferId::LoraInput { layer, target: LoraTarget::Mlp1 }] == normed(dev, f, r)
            &&& e[BufferId::LoraInput { layer, target: LoraTarget::Mlp2 }] == mlp_of(
                dev,
                f,
                st,
                layer,
                r,
            )
            &&& forall|id: BufferId| lasting(id, layer) ==> #[trigger] e[id] == st[id]
            &&& stored(f, e)
        }),
{
    let (a, b, c) = (f.qkv_steps(layer), f.attend_steps(layer, pos), f.mlp_steps(layer));
    lemma_run_concat(dev, st, a + b, c);
    lemma_run_concat(dev, st, a, b);
    let s1 = run(dev, st, a);
    lemma_qkv(dev, f, st, layer, pos);
    let s2 = run(dev, s1, b);
    lemma_attend(dev, f, s1, layer, pos);
    lemma_mlp(dev, f, s2, layer, pos);
    assert(s1[BufferId::KeyCache { layer }] == st[BufferId::KeyCache { layer }]);
    assert(s1[BufferId::ValueCache { layer }] == st[BufferId::ValueCache { layer }]);
    assert(s1[BufferId::Weight { layer, target: LoraTarget::O }] == st[BufferId::Weight {
        layer,
        target: LoraTarget::O,
    }]);
    assert(s1[BufferId::LoraA { layer, target: LoraTarget::O }] == st[BufferId::LoraA {
        layer,
        target: LoraTarget::O,
    }]);
    assert(s1[BufferId::LoraB { layer, target: LoraTarget::O }] == st[BufferId::LoraB {
        layer,
        target: LoraTarget::O,
    }]);
    assert forall|t: LoraTarget| #![auto]
        s2[BufferId::Weight { layer, target: t }] == st[BufferId::Weight { layer, target: t }]
            && s2[BufferId::LoraA { layer, target: t }] == st[BufferId::LoraA { layer, target: t }]
            && s2[BufferId::LoraB { layer, target: t }] == st[BufferId::LoraB {
            layer,
            target: t,
        }] by {
        let w = BufferId::Weight { layer, target: t };
        let x = BufferId::LoraA { layer, target: t };
        let y = BufferId::LoraB { layer, target: t };
        assert(s1[w] == st[w] && s1[x] == st[x] && s1[y] == st[y]);
    }
    lemma_other_targets();
    let e = run(dev, s2, c);
    let li = |t: LoraTarget| BufferId::LoraInput { layer, target: t };
    assert(e[li(LoraTarget::Q)] == s2[li(LoraTarget::Q)]);
    assert(s2[li(LoraTarget::Q)] == s1[li(LoraTarget::Q)]);
    assert(e[li(LoraTarget::K)] == s2[li(LoraTarget::K)]);
    assert(s2[li(LoraTarget::K)] == s1[li(LoraTarget::K)]);
    assert(e[li(LoraTarget::V)] == s2[li(LoraTarget::V)]);
    assert(s2[li(LoraTarget::V)] == s1[li(LoraTarget::V)]);
    assert(e[li(LoraTarget::O)] == s2[li(LoraTarget::O)]);
    assert(e[BufferId::KeyCache { layer }] == s2[BufferId::KeyCache { layer }]);
    assert(e[BufferId::ValueCache { layer }] == s2[BufferId::ValueCache { layer }]);
    assert forall|id: BufferId| lasting(id, layer) implies #[trigger] e[id] == st[id] by {
        assert(e[id] == s2[id]);
        assert(s2[id] == s1[id]);
        assert(s1[id] == st[id]);
    }
}

proof fn lemma_other_targets()
    ensures
        !seq![LoraTarget::O].contains(LoraTarget::Q),
        !seq![LoraTarget::O].contains(LoraTarget::K),
        !seq![LoraTarget::O].contains(LoraTarget::V),
        !seq![LoraTarget::Mlp1, LoraTarget::Mlp2].contains(LoraTarget::Q),
        !seq![LoraTarget::Mlp1, LoraTarget::Mlp2].contains(LoraTarget::K),
        !seq![LoraTarget::Mlp1, LoraTarget::Mlp2].contains(LoraTarget::V),
        !seq![LoraTarget::Mlp1, LoraTarget::Mlp2].contains(LoraTarget::O),
{
}

/// The hidden vector after the first `layers` layers.
pub open spec fn hidden_after(
    dev: Device,
    f: GpuForwardPass,
    st: Map<BufferId, Seq<int>>,
    pos: int,
    h: Seq<int>,
    layers: nat,
) -> Seq<int>
    decreases layers,
{
    if layers == 0 {
        h
    } else {
        layer_output(
            dev,
            f,
            st,
            (layers - 1) as usize,
            pos,
            hidden_after(dev, f, st, pos, h, (layers - 1) as nat),
        )
    }
}

proof fn lemma_layers(
    dev: Device,
    f: GpuForwardPass,
    st: Map<BufferId, Seq<int>>,
    pos: int,
    layers: nat,
)
    requires
        runnable(dev, f, st, pos),
        layers <= f.config.n_layer,
    ensures
        ({
            let e = run(dev, st, f.layers_steps(layers, pos));
            &&& e[BufferId::Hidden] == hidden_after(
                dev,
                f,
                st,
                pos,
                st[BufferId::Hidden],
                layers,
            )
            &&& forall|id: BufferId, l: usize|
                l >= layers && (id is LmHead || id is Weight || id is LoraA || id is LoraB
                    || id is Logits || id == (BufferId::KeyCache { layer: l }) || id == (
                BufferId::ValueCache { layer: l })) ==> #[trigger] e[id] == #[trigger] at_layer(
                    st,
                    id,
                    l,
                )
            &&& stored(f, e)
        }),
    decreases layers,
{
    if layers > 0 {
        let m = (layers - 1) as nat;
        let l = m as usize;
        lemma_layers(dev, f, st, pos, m);
        let s = run(dev, st, f.layers_steps(m, pos));
        lemma_run_concat(dev, st, f.layers_steps(m, pos), f.layer_steps(l, pos));
        law_layer_computes(dev, f, s, l, pos);
        let e = run(dev, s, f.layer_steps(l, pos));
        assert forall|id: BufferId, k: usize|
            k >= layers && (id is LmHead || id is Weight || id is LoraA || id is LoraB
                || id is Logits || id == (BufferId::KeyCache { layer: k }) || id == (
            BufferId::ValueCache { layer: k })) implies #[trigger] e[id] == #[trigger] at_layer(
            st,
            id,
            k,
        ) by {
            assert(lasting(id, l));
            assert(e[id] == s[id]);
            assert(s[id] == at_layer(st, id, k));
        }
        assert forall|t: LoraTarget| #![auto]
            s[BufferId::Weight { layer: l, target: t }] == st[BufferId::Weight {
                layer: l,
                target: t,
            }] && s[BufferId::LoraA { layer: l, target: t }] == st[BufferId::LoraA {
                layer: l,
                target: t,
            }] && s[BufferId::LoraB { layer: l, target: t }] == st[BufferId::LoraB {
                layer: l,
                target: t,
            }] by {
            let w = BufferId::Weight { layer: l, target: t };
            let x = BufferId::LoraA { layer: l, target: t };
            let y = BufferId::LoraB { layer: l, target: t };
            assert(s[w] == at_layer(st, w, l) && s[x] == at_layer(st, x, l) && s[y] == at_layer(
                st,
                y,
                l,
            ));
        }
        let kc = BufferId::KeyCache { layer: l };
        let vc = BufferId::ValueCache { layer: l };
        assert(s[kc] == at_layer(st, kc, l) && s[vc] == at_layer(st, vc, l));
    }
}

/// What a buffer holds; the layer says from where on it is of interest.
spec fn at_layer(st: Map<BufferId, Seq<int>>, id: BufferId, l: usize) -> Seq<int> {
    st[id]
}

/// For one position the token is embedded, goes through all layers in order, and the head's product
/// with what comes out is put in the position's row of the logits. The other rows stay.
pub proof fn law_position_computes(
    dev: Device,
    f: GpuForwardPass,
    st: Map<BufferId, Seq<int>>,
    token: usize,
    pos: usize,
)
    requires
        runnable(dev, f, st, pos as int),
        (dev.embed)(token, pos).len() == f.config.n_embd,
    ensures
        ({
            let e = run(dev, st, f.position_steps(token, pos as int));
            let h = hidden_after(
                dev,
                f,
                st,
                pos as int,
                (dev.embed)(token, pos),
                f.config.n_layer as nat,
            );
            let v = f.config.vocab_size as int;
            e[BufferId::Logits] == overlay(
                st[BufferId::Logits],
                pos * v,
                (dev.op)(
                    Kernel::Matmul,
                    seq![st[BufferId::LmHead], h],
                    Params::Matmul {
                        sizes: MatmulParams {
                            m: v as u32,
                            n: f.config.n_embd as u32,
                            p: 1,
                            _pad: 0,
                        },
                    },
                ),
            )
        }),
{
    let first = seq![Step::Embed { token, pos }];
    let mid = f.layers_steps(f.config.n_layer as nat, pos as int);
    let last = f.lm_head_steps(pos as int);
    lemma_run_concat(dev, st, first + mid, last);
    lemma_run_concat(dev, st, first, mid);
    lemma_run_one(dev, st, first[0]);
    let s1 = after(dev, st, first[0]);
    lemma_layers(dev, f, s1, pos as int, f.config.n_layer as nat);
    let s2 = run(dev, s1, mid);
    let none = f.config.n_layer;
    assert(s2[BufferId::LmHead] == at_layer(s1, BufferId::LmHead, none));
    assert(s2[BufferId::Logits] == at_layer(s1, BufferId::Logits, none));
    lemma_hidden_from(
        dev,
        f,
        st,
        s1,
        pos as int,
        (dev.embed)(token, pos),
        f.config.n_layer as nat,
    );
    lemma_lm_head(dev, f, s2, pos as int);
}

proof fn lemma_lm_head(dev: Device, f: GpuForwardPass, st: Map<BufferId, Seq<int>>, pos: int)
    requires
        runnable(dev, f, st, pos),
    ensures
        run(dev, st, f.lm_head_steps(pos))[BufferId::Logits] == overlay(
            st[BufferId::Logits],
            pos * f.config.vocab_size,
            (dev.op)(
                Kernel::Matmul,
                seq![st[BufferId::LmHead], st[BufferId::Hidden]],
                Params::Matmul {
                    sizes: MatmulParams {
                        m: f.config.vocab_size as u32,
                        n: f.config.n_embd as u32,
                        p: 1,
                        _pad: 0,
                    },
                },
            ),
        ),
{
    let n = f.config.n_embd as int;
    let v = f.config.vocab_size as int;
    let last = f.lm_head_steps(pos);
    let sizes = MatmulParams { m: v as u32, n: n as u32, p: 1, _pad: 0 };
    let h = st[BufferId::Hidden];
    lemma_run_two(dev, st, last[0], last[1]);
    assert(last =~= seq![last[0], last[1]]);
    lemma_row_place(f, pos);
    let bound = forward::two_inputs(BufferId::LmHead, BufferId::Hidden, BufferId::TempLogits);
    let params = Params::Matmul { sizes };
    assert(sizes.n * sizes.p == n && sizes.m * sizes.p == v) by (nonlinear_arith)
        requires
            sizes.n == n,
            sizes.m == v,
            sizes.p == 1,
    ;
    assert(bound.slot(0) == Some(BufferId::LmHead));
    assert(bound.slot(1) == Some(BufferId::Hidden));
    assert(bound.slot(2) == Some(BufferId::TempLogits));
    assert(h.len() == n);
    assert(h.take(n) =~= h);
    assert(operands(st, Kernel::Matmul, bound, params) =~= seq![st[BufferId::LmHead], h]);
    let r = (dev.op)(Kernel::Matmul, seq![st[BufferId::LmHead], h], params);
    assert(r.len() == result_len(params));
    assert(st[BufferId::TempLogits].len() == v);
    lemma_overlay(st[BufferId::TempLogits], 0, r);
    let s1 = after(dev, st, last[0]);
    assert(s1[BufferId::TempLogits] == r);
    assert(r.subrange(0, v) =~= r);
}

proof fn lemma_hidden_from(
    dev: Device,
    f: GpuForwardPass,
    a: Map<BufferId, Seq<int>>,
    b: Map<BufferId, Seq<int>>,
    pos: int,
    h: Seq<int>,
    layers: nat,
)
    requires
        forall|id: BufferId| id != BufferId::Hidden ==> #[trigger] b[id] == a[id],
    ensures
        hidden_after(dev, f, b, pos, h, layers) == hidden_after(dev, f, a, pos, h, layers),
    decreases layers,
{
    if layers > 0 {
        lemma_hidden_from(dev, f, a, b, pos, h, (layers - 1) as nat);
    }
}

} // verus!
