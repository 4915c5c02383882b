//! Cross-entropy loss: the two dispatches that compute it.
//!
//! 1. Per-sample softmax and loss, one invocation per position.
//! 2. Tree reduction to the mean loss.

use vstd::prelude::*;

use crate::gpu::kernels;
use crate::gpu::kernels::dispatch_1d;
use crate::gpu::kernels::Kernel;
use crate::gpu::plan;
use crate::gpu::plan::Bindings;
use crate::gpu::plan::BufferId;
use crate::gpu::plan::Params;
use crate::gpu::plan::Step;

verus! {

/// Cross-entropy loss computation.
#[derive(Clone, Copy, Debug, PartialEq, Eq, Structural)]
pub struct GpuLoss;

/// What computes a loss: the targets to upload and the dispatches to run.
#[derive(Debug)]
pub struct LossPlan {
    pub targets: Vec<u32>,
    pub steps: Vec<Step>,
}

/// The dispatches for a number of samples.
pub open spec fn loss_steps(batch_seq: int, vocab_size: int) -> Seq<Step> {
    let params = Params::Loss {
        batch_seq: batch_seq as u32,
        vocab_size: vocab_size as u32,
        total_tokens: batch_seq as u32,
    };
    seq![
        Step::Dispatch {
            kernel: Kernel::CrossEntropyPerSample,
            bound: Bindings {
                b0: Some(BufferId::Logits),
                b1: Some(BufferId::Targets),
                b2: Some(BufferId::PerSampleLoss),
                b3: Some(BufferId::LogProbs),
                b4: None,
                uniform: 4,
            },
            params,
            groups: kernels::groups(batch_seq, 64) as u32,
        },
        Step::Dispatch {
            kernel: Kernel::CrossEntropyReduce,
            bound: Bindings {
                b0: Some(BufferId::PerSampleLoss),
                b1: Some(BufferId::LossOutput),
                b2: None,
                b3: None,
                b4: None,
                uniform: 2,
            },
            params,
            groups: 1,
        },
    ]
}

impl GpuLoss {
    /// The plan for a list of targets. There is none for no targets: the loss is then zero.
    pub fn compute_loss(targets: &[usize], vocab_size: usize) -> (r: Option<LossPlan>)
        ensures
            targets@.len() == 0 ==> r is None,
            targets@.len() > 0 ==> (r matches Some(p) && p.targets@ == targets@.map_values(
                |t: usize| t as u32,
            ) && p.steps@ == loss_steps(targets@.len() as int, vocab_size as int)),
    {
        let batch_seq: usize = targets.len();
        if batch_seq == 0 {
            return None;
        }
        let mut words: Vec<u32> = Vec::new();
        let mut i: usize = 0;
        while i < batch_seq
            invariant
                i <= batch_seq == targets@.len(),
                words@ =~= targets@.map_values(|t: usize| t as u32).take(i as int),
            decreases batch_seq - i,
        {
            words.push(targets[i] as u32);
            i = i + 1;
        }
        let params = Params::Loss {
            batch_seq: batch_seq as u32,
            vocab_size: vocab_size as u32,
            total_tokens: batch_seq as u32,
        };
        let mut steps: Vec<Step> = Vec::new();
        steps.push(
            Step::Dispatch {
                kernel: Kernel::CrossEntropyPerSample,
                bound: Bindings {
                    b0: Some(BufferId::Logits),
                    b1: Some(BufferId::Targets),
                    b2: Some(BufferId::PerSampleLoss),
                    b3: Some(BufferId::LogProbs),
                    b4: None,
                    uniform: 4,
                },
                params,
                groups: dispatch_1d(batch_seq, 64)[0],
            },
        );
        steps.push(
            Step::Dispatch {
                kernel: Kernel::CrossEntropyReduce,
                bound: Bindings {
                    b0: Some(BufferId::PerSampleLoss),
                    b1: Some(BufferId::LossOutput),
                    b2: None,
                    b3: None,
                    b4: None,
                    uniform: 2,
                },
                params,
                groups: 1,
            },
        );
        assert(steps@ =~= loss_steps(batch_seq as int, vocab_size as int));
        assert(words@ =~= targets@.map_values(|t: usize| t as u32));
        Some(LossPlan { targets: words, steps })
    }

    /// Where the logit of a sample's target stands among `len` logits, or none where the
    /// target is no token or its logit is missing: such a sample adds nothing to the loss.
    pub fn target_place(sample: usize, target: usize, vocab_size: usize, len: usize) -> (r: Option<
        usize,
    >)
        requires
            sample * vocab_size <= usize::MAX,
        ensures
            r == (if target < vocab_size && sample * vocab_size + target < len {
                Some((sample * vocab_size + target) as usize)
            } else {
                None
            }),
    {
        let offset: usize = sample * vocab_size;
        if target < vocab_size && offset < len && target < len - offset {
            Some(offset + target)
        } else {
            None
        }
    }
}

/// The dispatches of a loss bind no buffer that they write a second time.
pub proof fn law_loss_is_unaliased(batch_seq: int, vocab_size: int, i: int)
    requires
        0 <= i < loss_steps(batch_seq, vocab_size).len(),
    ensures
        plan::step_unaliased(loss_steps(batch_seq, vocab_size)[i]),
{
}

/// The loss is taken of every sample and then averaged over all of them: the first dispatch covers
/// the samples, reads the logits and the targets, and writes what the second one reads; both know
/// of as many samples, and count each as one token.
pub proof fn law_loss_covers_every_sample(batch_seq: int, vocab_size: int)
    requires
        0 <= batch_seq <= u32::MAX,
        0 <= vocab_size <= u32::MAX,
    ensures
        loss_steps(batch_seq, vocab_size).len() == 2,
        loss_steps(batch_seq, vocab_size)[0] matches Step::Dispatch {
            kernel: Kernel::CrossEntropyPerSample,
            bound,
            params,
            groups,
        } && groups * 64 >= batch_seq && bound.uniform == 4 && bound.slot(0) == Some(BufferId::Logits) && bound.slot(1)
            == Some(BufferId::Targets) && bound.slot(2) == Some(BufferId::PerSampleLoss)
            && bound.slot(3) == Some(BufferId::LogProbs) && (params matches Params::Loss {
            batch_seq: n,
            vocab_size: v,
            total_tokens: t,
        } && n == batch_seq && v == vocab_size && t == batch_seq),
        loss_steps(batch_seq, vocab_size)[1] matches Step::Dispatch {
            kernel: Kernel::CrossEntropyReduce,
            bound,
            params,
            groups,
        } && groups == 1 && bound.uniform == 2 && bound.slot(0) == Some(BufferId::PerSampleLoss) && bound.slot(1) == Some(
            BufferId::LossOutput,
        ) && (params matches Params::Loss { batch_seq: n, vocab_size: v, total_tokens: t } && n
            == batch_seq && v == vocab_size && t == batch_seq),
{
    kernels::law_groups_cover(batch_seq, 64);
    let g = kernels::groups(batch_seq, 64);
    assert(0 <= g <= u32::MAX);
}

} // verus!
