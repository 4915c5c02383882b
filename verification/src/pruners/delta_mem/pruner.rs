//! A pruner steered by a memory: which observations are written, and when.

use vstd::prelude::*;

use crate::pruners::delta_mem::state;
use crate::pruners::delta_mem::state::DeltaMemoryConfig;
use crate::pruners::delta_mem::state::DeltaMemorySnapshot;
use crate::pruners::delta_mem::state::DeltaMemoryState;

verus! {

/// Where the correction applies.
#[derive(Clone, Copy, Debug, PartialEq, Eq, Structural)]
pub enum CorrectionMode {
    /// Adjust relevance before inner pruner.
    QuerySide,
    /// Adjust relevance after inner pruner.
    OutputSide,
    /// Both corrections.
    Both,
}

/// Write granularity.
#[derive(Clone, Copy, Debug, PartialEq, Eq, Structural)]
pub enum WriteGranularity {
    /// Per-token write.
    Token,
    /// Averaged write per tree build.
    Segment,
}

/// Features of a tree context that keys are hashed from.
pub const KEY_FEATURES: usize = 8;

/// Features of an outcome that values are hashed from.
pub const VALUE_FEATURES: usize = 3;

/// Seeds of the two feature hashers.
#[derive(Clone, Copy, Debug, PartialEq, Eq, Structural)]
pub struct HasherSeeds {
    pub key: u64,
    pub value: u64,
}

/// A pruner whose relevance scores are corrected by a memory.
///
/// The memory learns associations between contexts `C` and outcomes `O`.
#[derive(Debug)]
pub struct MemorySteeredPruner<P, C, O> {
    /// Inner pruner being corrected.
    pub inner: P,
    /// Associative memory state.
    pub memory: DeltaMemoryState,
    /// Bit pattern of the correction strength.
    pub alpha: u32,
    /// Seeds of the feature hashers.
    pub seeds: HasherSeeds,
    /// Correction mode.
    pub mode: CorrectionMode,
    /// Observations of the tree build in progress.
    pub pending: Vec<(C, O)>,
    /// Write granularity.
    pub write_granularity: WriteGranularity,
}

impl<P, C, O> MemorySteeredPruner<P, C, O> {
    /// Observations wait only where they are written per segment.
    pub open spec fn wf(self) -> bool {
        self.write_granularity is Token ==> self.pending@.len() == 0
    }

    /// Create a new memory-steered pruner.
    pub fn new(
        inner: P,
        memory_config: DeltaMemoryConfig,
        alpha: u32,
        mode: CorrectionMode,
        write_granularity: WriteGranularity,
    ) -> (p: MemorySteeredPruner<P, C, O>)
        requires
            memory_config.rank * memory_config.rank <= usize::MAX,
        ensures
            p.wf(),
            p.inner == inner,
            p.memory@ == state::blank(memory_config),
            p.alpha == alpha,
            p.seeds == (HasherSeeds { key: 42, value: 99 }),
            p.mode == mode,
            p.pending@.len() == 0,
            p.write_granularity == write_granularity,
    {
        MemorySteeredPruner {
            inner,
            memory: DeltaMemoryState::new(memory_config),
            alpha,
            seeds: HasherSeeds { key: 42, value: 99 },
            mode,
            pending: Vec::new(),
            write_granularity,
        }
    }

    /// Create with custom seeds for feature hashers.
    pub fn with_seeds(self, key_seed: u64, val_seed: u64) -> (p: MemorySteeredPruner<P, C, O>)
        ensures
            p == (MemorySteeredPruner {
                seeds: HasherSeeds { key: key_seed, value: val_seed },
                ..self
            }),
    {
        MemorySteeredPruner {
            inner: self.inner,
            memory: self.memory,
            alpha: self.alpha,
            seeds: HasherSeeds { key: key_seed, value: val_seed },
            mode: self.mode,
            pending: self.pending,
            write_granularity: self.write_granularity,
        }
    }

    /// Observe an outcome: what is to be written at once, or nothing where it waits for the end
    /// of the segment.
    pub fn observe(&mut self, ctx: C, outcome: O) -> (r: Option<(C, O)>)
        requires
            old(self).wf(),
        ensures
            final(self).wf(),
            old(self).write_granularity is Token ==> r == Some((ctx, outcome))
                && final(self).pending@ == old(self).pending@,
            old(self).write_granularity is Segment ==> r is None && final(self).pending@ == old(
                self,
            ).pending@.push((ctx, outcome)),
            *final(self) == (MemorySteeredPruner { pending: final(self).pending, ..*old(self) }),
    {
        match self.write_granularity {
            WriteGranularity::Token => Some((ctx, outcome)),
            WriteGranularity::Segment => {
                self.pending.push((ctx, outcome));
                None
            },
        }
    }

    /// End a segment: the observations of its averaged write, in order. Without any there is
    /// nothing to write.
    pub fn flush_segment(&mut self) -> (r: Option<Vec<(C, O)>>)
        requires
            old(self).wf(),
        ensures
            final(self).wf(),
            final(self).pending@.len() == 0,
            r is None == (old(self).pending@.len() == 0),
            r matches Some(v) ==> v@ == old(self).pending@,
            *final(self) == (MemorySteeredPruner { pending: final(self).pending, ..*old(self) }),
    {
        if self.pending.len() == 0 {
            return None;
        }
        let mut v: Vec<(C, O)> = Vec::new();
        std::mem::swap(&mut v, &mut self.pending);
        Some(v)
    }

    /// Number of pending observations.
    pub fn pending_count(&self) -> (n: usize)
        ensures
            n == self.pending@.len(),
    {
        self.pending.len()
    }

    /// Get correction mode.
    pub fn mode(&self) -> (m: CorrectionMode)
        ensures
            m == self.mode,
    {
        self.mode
    }

    /// Get write granularity.
    pub fn write_granularity(&self) -> (g: WriteGranularity)
        ensures
            g == self.write_granularity,
    {
        self.write_granularity
    }

    /// Access inner pruner.
    pub fn inner(&self) -> (p: &P)
        ensures
            *p == self.inner,
    {
        &self.inner
    }

    /// Access memory state.
    pub fn memory(&self) -> (m: &DeltaMemoryState)
        ensures
            *m == self.memory,
    {
        &self.memory
    }

    /// Mutable access to inner pruner.
    pub fn inner_mut(&mut self) -> (p: &mut P)
        ensures
            *p == old(self).inner,
            *final(self) == (MemorySteeredPruner { inner: *final(p), ..*old(self) }),
    {
        &mut self.inner
    }

    /// Mutable access to memory state.
    pub fn memory_mut(&mut self) -> (m: &mut DeltaMemoryState)
        ensures
            *m == old(self).memory,
            *final(self) == (MemorySteeredPruner { memory: *final(m), ..*old(self) }),
    {
        &mut self.memory
    }

    /// Snapshot memory state for persistence.
    pub fn snapshot_memory(&self) -> (s: DeltaMemorySnapshot)
        ensures
            s@ == self.memory@.contents(),
    {
        self.memory.snapshot()
    }

    /// Reset memory and pending observations.
    pub fn reset(&mut self)
        requires
            old(self).memory.config.rank * old(self).memory.config.rank <= usize::MAX,
        ensures
            final(self).wf(),
            final(self).memory@ == state::blank(old(self).memory.config),
            final(self).pending@.len() == 0,
            *final(self) == (MemorySteeredPruner {
                memory: final(self).memory,
                pending: final(self).pending,
                ..*old(self)
            }),
    {
        self.memory.reset();
        self.pending = Vec::new();
    }
}

} // verus!
