//! Reusable buffers for the drafted and the target distributions.
//!
//! Distributions are stored one after another as bit patterns of single-precision numbers.

use vstd::prelude::*;

verus! {

/// The place of one distribution in a flat buffer, if it lies inside.
pub open spec fn segment(flat: Seq<u32>, step: int, vocab_size: int) -> Seq<u32> {
    if (step + 1) * vocab_size <= flat.len() {
        flat.subrange(step * vocab_size, (step + 1) * vocab_size)
    } else {
        seq![]
    }
}

/// Pre-allocated buffers for speculative decoding.
#[derive(Debug)]
pub struct SpeculativeContext {
    /// Flat marginals buffer: `[draft_lookahead * vocab_size]`.
    pub marginals_flat: Vec<u32>,
    /// Sampled tokens: `[draft_lookahead]`.
    pub sampled_tokens: Vec<usize>,
    /// Flat target distributions: `[(draft_lookahead + 1) * vocab_size]`.
    pub p_distributions_flat: Vec<u32>,
    /// Number of steps populated in last operation (for slicing).
    pub steps_populated: usize,
}

fn copy_segment(flat: &Vec<u32>, step: usize, vocab_size: usize) -> (r: Vec<u32>)
    requires
        (step + 1) * vocab_size <= usize::MAX,
    ensures
        r@ == segment(flat@, step as int, vocab_size as int),
{
    let mut out: Vec<u32> = Vec::new();
    proof {
        lemma_segment(step as int, vocab_size as int);
    }
    let start: usize = step * vocab_size;
    let end: usize = start + vocab_size;
    if end > flat.len() {
        assert(out@ =~= seq![]);
        return out;
    }
    let mut i: usize = start;
    while i < end
        invariant
            start <= i <= end <= flat@.len(),
            out@ =~= flat@.subrange(start as int, i as int),
        decreases end - i,
    {
        out.push(flat[i]);
        i = i + 1;
    }
    out
}

fn write_segment(flat: &mut Vec<u32>, step: usize, values: &Vec<u32>) -> (ok: bool)
    requires
        (step + 1) * values@.len() <= usize::MAX,
    ensures
        ok == ((step + 1) * values@.len() <= old(flat)@.len()),
        !ok ==> final(flat)@ == old(flat)@,
        ok ==> {
            let lo = step * values@.len();
            final(flat)@ == old(flat)@.subrange(0, lo) + values@ + old(flat)@.subrange(
                lo + values@.len(),
                old(flat)@.len() as int,
            )
        },
{
    let n: usize = values.len();
    proof {
        lemma_segment(step as int, n as int);
    }
    let start: usize = step * n;
    let end: usize = start + n;
    if end > flat.len() {
        return false;
    }
    let mut i: usize = 0;
    while i < n
        invariant
            i <= n == values@.len(),
            start + n == end,
            end <= old(flat)@.len() == flat@.len(),
            forall|j: int|
                0 <= j < flat@.len() ==> #[trigger] flat@[j] == (if start <= j < start + i {
                    values@[j - start]
                } else {
                    old(flat)@[j]
                }),
        decreases n - i,
    {
        flat.set(start + i, values[i]);
        i = i + 1;
    }
    assert(flat@ =~= old(flat)@.subrange(0, start as int) + values@ + old(flat)@.subrange(
        start + values@.len(),
        old(flat)@.len() as int,
    ));
    true
}

proof fn lemma_segment(step: int, vocab_size: int)
    requires
        0 <= step,
        0 <= vocab_size,
    ensures
        (step + 1) * vocab_size == step * vocab_size + vocab_size,
        0 <= step * vocab_size <= (step + 1) * vocab_size,
{
    assert((step + 1) * vocab_size == step * vocab_size + vocab_size) by (nonlinear_arith);
    assert(0 <= step * vocab_size) by (nonlinear_arith)
        requires
            0 <= step,
            0 <= vocab_size,
    ;
}

impl SpeculativeContext {
    /// Allocate all buffers.
    pub fn new(draft_lookahead: usize, vocab_size: usize) -> (c: SpeculativeContext)
        requires
            (draft_lookahead + 1) * vocab_size <= usize::MAX,
        ensures
            c.marginals_flat@ == Seq::new((draft_lookahead * vocab_size) as nat, |i: int| 0u32),
            c.sampled_tokens@ == Seq::new(draft_lookahead as nat, |i: int| 0usize),
            c.p_distributions_flat@ == Seq::new(
                ((draft_lookahead + 1) * vocab_size) as nat,
                |i: int| 0u32,
            ),
            c.steps_populated == 0,
    {
        proof {
            lemma_segment(draft_lookahead as int, vocab_size as int);
        }
        let marginals: usize = draft_lookahead * vocab_size;
        let c = SpeculativeContext {
            marginals_flat: vec![0u32; marginals],
            sampled_tokens: vec![0usize; draft_lookahead],
            p_distributions_flat: vec![0u32; marginals + vocab_size],
            steps_populated: 0,
        };
        assert(c.marginals_flat@ =~= Seq::new(
            (draft_lookahead * vocab_size) as nat,
            |i: int| 0u32,
        ));
        assert(c.sampled_tokens@ =~= Seq::new(draft_lookahead as nat, |i: int| 0usize));
        assert(c.p_distributions_flat@ =~= Seq::new(
            ((draft_lookahead + 1) * vocab_size) as nat,
            |i: int| 0u32,
        ));
        c
    }

    /// Reset transient state between decode steps. The buffers are kept.
    pub fn reset(&mut self)
        ensures
            final(self).steps_populated == 0,
            final(self).marginals_flat@ == old(self).marginals_flat@,
            final(self).sampled_tokens@ == old(self).sampled_tokens@,
            final(self).p_distributions_flat@ == old(self).p_distributions_flat@,
    {
        self.steps_populated = 0;
    }

    /// The marginal of a populated step; empty if the step is out of range.
    pub fn marginal_slice(&self, step: usize, vocab_size: usize) -> (r: Vec<u32>)
        requires
            (step + 1) * vocab_size <= usize::MAX,
        ensures
            r@ == (if step < self.steps_populated {
                segment(self.marginals_flat@, step as int, vocab_size as int)
            } else {
                seq![]
            }),
    {
        if step < self.steps_populated {
            copy_segment(&self.marginals_flat, step, vocab_size)
        } else {
            let none: Vec<u32> = Vec::new();
            assert(none@ =~= seq![]);
            none
        }
    }

    /// Stores the marginal of a step. Says whether the step is in range.
    pub fn set_marginal(&mut self, step: usize, marginal: &Vec<u32>) -> (ok: bool)
        requires
            (step + 1) * marginal@.len() <= usize::MAX,
        ensures
            ok == ((step + 1) * marginal@.len() <= old(self).marginals_flat@.len()),
            !ok ==> final(self).marginals_flat@ == old(self).marginals_flat@,
            ok ==> {
                let lo = step * marginal@.len();
                final(self).marginals_flat@ == old(self).marginals_flat@.subrange(0, lo) + marginal@
                    + old(self).marginals_flat@.subrange(
                    lo + marginal@.len(),
                    old(self).marginals_flat@.len() as int,
                )
            },
            final(self).sampled_tokens@ == old(self).sampled_tokens@,
            final(self).p_distributions_flat@ == old(self).p_distributions_flat@,
            final(self).steps_populated == old(self).steps_populated,
    {
        write_segment(&mut self.marginals_flat, step, marginal)
    }

    /// The populated marginals, one by one.
    pub fn marginals_view(&self, vocab_size: usize) -> (r: Vec<Vec<u32>>)
        requires
            self.steps_populated * vocab_size <= usize::MAX,
            self.steps_populated < usize::MAX,
        ensures
            r@.len() == self.steps_populated,
            forall|i: int|
                0 <= i < r@.len() ==> (#[trigger] r@[i])@ == segment(
                    self.marginals_flat@,
                    i,
                    vocab_size as int,
                ),
    {
        let mut out: Vec<Vec<u32>> = Vec::new();
        let mut step: usize = 0;
        while step < self.steps_populated
            invariant
                step <= self.steps_populated,
                self.steps_populated * vocab_size <= usize::MAX,
                out@.len() == step,
                forall|i: int|
                    0 <= i < out@.len() ==> (#[trigger] out@[i])@ == segment(
                        self.marginals_flat@,
                        i,
                        vocab_size as int,
                    ),
            decreases self.steps_populated - step,
        {
            assert((step + 1) * vocab_size <= self.steps_populated * vocab_size)
                by (nonlinear_arith)
                requires
                    step + 1 <= self.steps_populated,
                    0 <= vocab_size,
            ;
            out.push(self.marginal_slice(step, vocab_size));
            step = step + 1;
        }
        out
    }

    /// The sampled tokens of the populated steps.
    pub fn sampled_tokens(&self) -> (r: Vec<usize>)
        requires
            self.steps_populated <= self.sampled_tokens@.len(),
        ensures
            r@ == self.sampled_tokens@.take(self.steps_populated as int),
    {
        let mut out: Vec<usize> = Vec::new();
        let mut i: usize = 0;
        while i < self.steps_populated
            invariant
                i <= self.steps_populated <= self.sampled_tokens@.len(),
                out@ =~= self.sampled_tokens@.take(i as int),
            decreases self.steps_populated - i,
        {
            out.push(self.sampled_tokens[i]);
            i = i + 1;
        }
        out
    }

    /// The target distribution of a step; empty if the step is out of range.
    pub fn p_dist_slice(&self, step: usize, vocab_size: usize) -> (r: Vec<u32>)
        requires
            (step + 1) * vocab_size <= usize::MAX,
        ensures
            r@ == segment(self.p_distributions_flat@, step as int, vocab_size as int),
    {
        copy_segment(&self.p_distributions_flat, step, vocab_size)
    }

    /// Stores the target distribution of a step. Says whether the step is in range.
    pub fn set_p_dist(&mut self, step: usize, dist: &Vec<u32>) -> (ok: bool)
        requires
            (step + 1) * dist@.len() <= usize::MAX,
        ensures
            ok == ((step + 1) * dist@.len() <= old(self).p_distributions_flat@.len()),
            !ok ==> final(self).p_distributions_flat@ == old(self).p_distributions_flat@,
            ok ==> {
                let lo = step * dist@.len();
                final(self).p_distributions_flat@ == old(self).p_distributions_flat@.subrange(0, lo)
                    + dist@ + old(self).p_distributions_flat@.subrange(
                    lo + dist@.len(),
                    old(self).p_distributions_flat@.len() as int,
                )
            },
            final(self).sampled_tokens@ == old(self).sampled_tokens@,
            final(self).marginals_flat@ == old(self).marginals_flat@,
            final(self).steps_populated == old(self).steps_populated,
    {
        write_segment(&mut self.p_distributions_flat, step, dist)
    }
}

/// What was stored for a step is read back for it, and every other step reads as before.
pub proof fn law_stored_step_reads_back(flat: Seq<u32>, after: Seq<u32>, step: int, other: int, values: Seq<u32>)
    requires
        0 <= step,
        0 <= other,
        other != step,
        (step + 1) * values.len() <= flat.len(),
        after == flat.subrange(0, step * values.len()) + values + flat.subrange(
            step * values.len() + values.len(),
            flat.len() as int,
        ),
    ensures
        segment(after, step, values.len() as int) == values,
        segment(after, other, values.len() as int) == segment(flat, other, values.len() as int),
{
    let n = values.len() as int;
    lemma_segment(step, n);
    lemma_segment(other, n);
    assert(segment(after, step, n) =~= values);
    if other < step {
        assert((other + 1) * n <= step * n) by (nonlinear_arith)
            requires
                other + 1 <= step,
                0 <= n,
        ;
    } else {
        assert((step + 1) * n <= other * n) by (nonlinear_arith)
            requires
                step + 1 <= other,
                0 <= n,
        ;
    }
    assert(segment(after, other, n) =~= segment(flat, other, n));
}

} // verus!
