//! AdamW: the learning-rate schedule and the update of every parameter group.

use vstd::prelude::*;

use crate::gpu::kernels;
use crate::gpu::kernels::dispatch_1d;
use crate::gpu::kernels::Kernel;
use crate::gpu::lora::AdapterView;
use crate::gpu::lora::GpuLoraBuffers;
use crate::gpu::plan;
use crate::gpu::plan::Bindings;
use crate::gpu::plan::BufferId;
use crate::gpu::plan::Params;
use crate::gpu::plan::Step;

verus! {

/// AdamW optimizer configuration. Rates are bit patterns of single-precision numbers.
#[derive(Clone, Copy, Debug, PartialEq, Eq, Structural)]
pub struct AdamWConfig {
    pub learning_rate: u32,
    pub weight_decay: u32,
    pub beta1: u32,
    pub beta2: u32,
    pub eps: u32,
    pub warmup_steps: usize,
}

impl Default for AdamWConfig {
    /// Learning rate 1e-3, weight decay 0.01, betas 0.9 and 0.999, eps 1e-8, 100 warmup steps.
    fn default() -> (c: AdamWConfig)
        ensures
            c == (AdamWConfig {
                learning_rate: 0x3A83_126F,
                weight_decay: 0x3C23_D70A,
                beta1: 0x3F66_6666,
                beta2: 0x3F7F_BE77,
                eps: 0x322B_CC77,
                warmup_steps: 100,
            }),
    {
        AdamWConfig {
            learning_rate: 0x3A83_126F,
            weight_decay: 0x3C23_D70A,
            beta1: 0x3F66_6666,
            beta2: 0x3F7F_BE77,
            eps: 0x322B_CC77,
            warmup_steps: 100,
        }
    }
}

/// How the learning rate of a step follows from the base rate.
#[derive(Clone, Copy, Debug, PartialEq, Eq, Structural)]
pub enum LrRule {
    /// The base rate.
    Base,
    /// The base rate times `step / of`.
    Warmup { step: u32, of: usize },
    /// The base rate times `0.5 * (1 + cos(pi * done / span))`.
    Cosine { done: usize, span: usize },
}

/// AdamW optimizer for LoRA parameters.
#[derive(Clone, Copy, Debug, PartialEq, Eq, Structural)]
pub struct AdamWOptimizer {
    pub config: AdamWConfig,
    pub step: u32,
}

/// `a - b`, or zero where that is negative.
pub open spec fn less_by(a: int, b: int) -> int {
    if a < b {
        0
    } else {
        a - b
    }
}

impl AdamWOptimizer {
    /// The rule of linear warmup at the current step.
    pub open spec fn lr_rule(self) -> LrRule {
        if self.config.warmup_steps == 0 || self.step > self.config.warmup_steps {
            LrRule::Base
        } else {
            LrRule::Warmup { step: self.step, of: self.config.warmup_steps }
        }
    }

    /// The rule of warmup with cosine decay after it.
    pub open spec fn cosine_rule(self, total_steps: usize) -> LrRule {
        if self.config.warmup_steps > 0 && self.step <= self.config.warmup_steps {
            LrRule::Warmup { step: self.step, of: self.config.warmup_steps }
        } else if total_steps == 0 {
            LrRule::Base
        } else {
            LrRule::Cosine {
                done: less_by(self.step as int, self.config.warmup_steps as int) as usize,
                span: less_by(total_steps as int, self.config.warmup_steps as int) as usize,
            }
        }
    }

    /// The update of one parameter group.
    pub open spec fn update_step(self, adapter: int, second: bool, count: int, lr: u32) -> Step {
        let adapter = adapter as usize;
        Step::Dispatch {
            kernel: Kernel::AdamwStep,
            bound: Bindings {
                b0: Some(BufferId::Param { adapter, second }),
                b1: Some(BufferId::Grad { adapter, second }),
                b2: Some(BufferId::FirstMoment { adapter, second }),
                b3: Some(BufferId::SecondMoment { adapter, second }),
                b4: None,
                uniform: 4,
            },
            params: Params::AdamW {
                lr,
                beta1: self.config.beta1,
                beta2: self.config.beta2,
                eps: self.config.eps,
                weight_decay: self.config.weight_decay,
                step: self.step,
                param_count: count as u32,
            },
            groups: kernels::groups(count, 256) as u32,
        }
    }

    /// The updates of the first `n` adapters: A, then B.
    pub open spec fn update_steps(self, adapters: Seq<AdapterView>, n: nat, lr: u32) -> Seq<Step>
        decreases n,
    {
        if n == 0 {
            seq![]
        } else {
            let a = adapters[n - 1];
            self.update_steps(adapters, (n - 1) as nat, lr) + seq![
                self.update_step(n - 1, false, (a.rank * a.in_dim) as int, lr),
                self.update_step(n - 1, true, (a.out_dim * a.rank) as int, lr),
            ]
        }
    }

    /// Create a new AdamW optimizer.
    pub fn new(config: AdamWConfig) -> (o: AdamWOptimizer)
        ensures
            o == (AdamWOptimizer { config, step: 0 }),
    {
        AdamWOptimizer { config, step: 0 }
    }

    /// Get the current step count.
    pub fn current_step(&self) -> (n: u32)
        ensures
            n == self.step,
    {
        self.step
    }

    /// The learning rate with linear warmup.
    pub fn current_lr(&self) -> (r: LrRule)
        ensures
            r == self.lr_rule(),
    {
        if self.config.warmup_steps == 0 {
            return LrRule::Base;
        }
        if self.step as u64 <= self.config.warmup_steps as u64 {
            LrRule::Warmup { step: self.step, of: self.config.warmup_steps }
        } else {
            LrRule::Base
        }
    }

    /// The learning rate with cosine decay after the warmup.
    pub fn current_lr_cosine(&self, total_steps: usize) -> (r: LrRule)
        ensures
            r == self.cosine_rule(total_steps),
    {
        let warmup: usize = self.config.warmup_steps;
        if warmup > 0 && self.step as u64 <= warmup as u64 {
            return LrRule::Warmup { step: self.step, of: warmup };
        }
        if total_steps == 0 {
            return LrRule::Base;
        }
        let done: usize = if (self.step as usize) < warmup {
            0
        } else {
            self.step as usize - warmup
        };
        let span: usize = if total_steps < warmup {
            0
        } else {
            total_steps - warmup
        };
        LrRule::Cosine { done, span }
    }

    /// Begin an optimizer step: count it and say how its learning rate follows.
    pub fn step(&mut self) -> (r: LrRule)
        requires
            old(self).step < u32::MAX,
        ensures
            final(self).step == old(self).step + 1,
            final(self).config == old(self).config,
            r == final(self).lr_rule(),
    {
        self.step = self.step + 1;
        self.current_lr()
    }

    fn dispatch_adamw(&self, adapter: usize, second: bool, count: usize, lr: u32) -> (s: Step)
        ensures
            s == self.update_step(adapter as int, second, count as int, lr),
    {
        Step::Dispatch {
            kernel: Kernel::AdamwStep,
            bound: Bindings {
                b0: Some(BufferId::Param { adapter, second }),
                b1: Some(BufferId::Grad { adapter, second }),
                b2: Some(BufferId::FirstMoment { adapter, second }),
                b3: Some(BufferId::SecondMoment { adapter, second }),
                b4: None,
                uniform: 4,
            },
            params: Params::AdamW {
                lr,
                beta1: self.config.beta1,
                beta2: self.config.beta2,
                eps: self.config.eps,
                weight_decay: self.config.weight_decay,
                step: self.step,
                param_count: count as u32,
            },
            groups: dispatch_1d(count, 256)[0],
        }
    }

    /// The updates of all LoRA parameters at the current step, with its learning rate.
    pub fn updates(&self, lora: &GpuLoraBuffers, lr: u32) -> (steps: Vec<Step>)
        requires
            forall|i: int|
                0 <= i < lora@.adapters.len() ==> {
                    let a = #[trigger] lora@.adapters[i];
                    a.rank * a.in_dim <= usize::MAX && a.out_dim * a.rank <= usize::MAX
                },
        ensures
            steps@ == self.update_steps(lora@.adapters, lora@.adapters.len(), lr),
    {
        let mut steps: Vec<Step> = Vec::new();
        let mut i: usize = 0;
        while i < lora.adapters.len()
            invariant
                i <= lora.adapters@.len(),
                lora@.adapters.len() == lora.adapters@.len(),
                forall|j: int|
                    0 <= j < lora@.adapters.len() ==> {
                        let a = #[trigger] lora@.adapters[j];
                        a.rank * a.in_dim <= usize::MAX && a.out_dim * a.rank <= usize::MAX
                    },
                steps@ =~= self.update_steps(lora@.adapters, i as nat, lr),
            decreases lora.adapters@.len() - i,
        {
            let ghost v = lora@.adapters[i as int];
            assert(v == lora.adapters@[i as int]@);
            let a = &lora.adapters[i];
            steps.push(self.dispatch_adamw(i, false, a.rank * a.in_dim, lr));
            steps.push(self.dispatch_adamw(i, true, a.out_dim * a.rank, lr));
            i = i + 1;
        }
        steps
    }

    /// Reset optimizer state (for re-training).
    pub fn reset(&mut self)
        ensures
            *final(self) == (AdamWOptimizer { config: old(self).config, step: 0 }),
    {
        self.step = 0;
    }
}

/// Warmup never exceeds the base rate, and reaches it at its last step.
pub proof fn law_warmup_is_a_fraction(o: AdamWOptimizer)
    ensures
        o.lr_rule() matches LrRule::Warmup { step, of } ==> of > 0 && step <= of && (step == of
            <==> o.step == o.config.warmup_steps),
{
}

/// Without warmup, cosine decay runs from zero to the whole of its span.
pub proof fn law_cosine_covers_its_span(o: AdamWOptimizer, total_steps: usize)
    requires
        o.config.warmup_steps == 0,
        0 < total_steps,
        o.step <= total_steps,
    ensures
        o.cosine_rule(total_steps) == (LrRule::Cosine { done: o.step as usize, span: total_steps }),
{
}

/// Each update touches the buffers of its own parameter group only, and none twice.
pub proof fn law_updates_are_unaliased(
    o: AdamWOptimizer,
    adapters: Seq<AdapterView>,
    n: nat,
    lr: u32,
    i: int,
)
    requires
        0 <= i < o.update_steps(adapters, n, lr).len(),
    ensures
        o.update_steps(adapters, n, lr).len() == 2 * n,
        plan::step_unaliased(o.update_steps(adapters, n, lr)[i]),
    decreases n,
{
    if n > 0 {
        lemma_updates_len(o, adapters, (n - 1) as nat, lr);
        if i < 2 * (n - 1) {
            law_updates_are_unaliased(o, adapters, (n - 1) as nat, lr, i);
        }
    }
}

proof fn lemma_updates_len(o: AdamWOptimizer, adapters: Seq<AdapterView>, n: nat, lr: u32)
    ensures
        o.update_steps(adapters, n, lr).len() == 2 * n,
    decreases n,
{
    if n > 0 {
        lemma_updates_len(o, adapters, (n - 1) as nat, lr);
    }
}

/// The rate rises step by step through the warmup and is the base rate after it.
pub proof fn law_warmup_comes_first(o: AdamWOptimizer)
    ensures
        o.lr_rule() is Warmup == (0 < o.config.warmup_steps && o.step <= o.config.warmup_steps),
        o.lr_rule() is Base == (o.step > o.config.warmup_steps || o.config.warmup_steps == 0),
        o.lr_rule() matches LrRule::Warmup { step, of } ==> step == o.step && of
            == o.config.warmup_steps,
{
}

/// With a cosine the warmup is the same. After it, each step goes one further along the cosine,
/// which ends with the last step.
pub proof fn law_cosine_follows_warmup(o: AdamWOptimizer, next: AdamWOptimizer, total_steps: usize)
    requires
        next.config == o.config,
        next.step == o.step + 1,
        o.config.warmup_steps < total_steps,
    ensures
        o.lr_rule() is Warmup ==> o.cosine_rule(total_steps) == o.lr_rule(),
        !(o.lr_rule() is Warmup) ==> o.cosine_rule(total_steps) is Cosine,
        o.cosine_rule(total_steps) matches LrRule::Cosine { done, span } ==> span == total_steps
            - o.config.warmup_steps && done + o.config.warmup_steps == o.step,
        o.cosine_rule(total_steps) matches LrRule::Cosine { done, span } ==> next.cosine_rule(
            total_steps,
        ) == (LrRule::Cosine { done: (done + 1) as usize, span }),
        o.step == total_steps ==> (o.cosine_rule(total_steps) matches LrRule::Cosine { done, span }
            && done == span),
{
}

/// Each adapter is updated twice in a step, first its A and then its B, each time all of its
/// parameters with their own gradient and moments, and with the settings, the step and the rate
/// that are current.
pub proof fn law_updates_cover_every_parameter(
    o: AdamWOptimizer,
    adapters: Seq<AdapterView>,
    n: nat,
    lr: u32,
    k: int,
    second: bool,
)
    requires
        0 <= k < n <= adapters.len(),
        n <= usize::MAX,
        adapters[k].rank * adapters[k].in_dim <= u32::MAX,
        adapters[k].out_dim * adapters[k].rank <= u32::MAX,
    ensures
        ({
            let count = if second {
                adapters[k].out_dim * adapters[k].rank
            } else {
                adapters[k].rank * adapters[k].in_dim
            };
            let adapter = k as usize;
            let i = 2 * k + (if second {
                1int
            } else {
                0
            });
            &&& o.update_steps(adapters, n, lr).len() == 2 * n
            &&& o.update_steps(adapters, n, lr)[i] matches Step::Dispatch {
                kernel: Kernel::AdamwStep,
                bound,
                params,
                groups,
            } && groups * 256 >= count && bound.uniform == 4 && bound.slot(0) == Some(
                BufferId::Param { adapter, second },
            ) && bound.slot(1) == Some(BufferId::Grad { adapter, second }) && bound.slot(2) == Some(
                BufferId::FirstMoment { adapter, second },
            ) && bound.slot(3) == Some(BufferId::SecondMoment { adapter, second }) && (params matches
                Params::AdamW { lr: r, beta1, beta2, eps, weight_decay, step, param_count } && r
                == lr && param_count == count && step == o.step && beta1 == o.config.beta1 && beta2
                == o.config.beta2 && eps == o.config.eps && weight_decay == o.config.weight_decay)
        }),
    decreases n,
{
    lemma_updates_len(o, adapters, n, lr);
    lemma_updates_len(o, adapters, (n - 1) as nat, lr);
    let a = adapters[k];
    let count = if second {
        a.out_dim * a.rank
    } else {
        a.rank * a.in_dim
    };
    kernels::law_groups_cover(count as int, 256);
    assert(0 <= kernels::groups(count as int, 256) <= u32::MAX);
    if k < n - 1 {
        law_updates_cover_every_parameter(o, adapters, (n - 1) as nat, lr, k, second);
    }
}

} // verus!
