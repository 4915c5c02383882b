//! One associative memory: a square matrix that learns by the delta rule.
//!
//! Entries are bit patterns of single-precision numbers.

use vstd::prelude::*;

verus! {

/// Settings of a memory.
#[derive(Clone, Copy, Debug, PartialEq, Eq, Structural)]
pub struct DeltaMemoryConfig {
    /// Rows and columns of the state.
    pub rank: usize,
}

impl Default for DeltaMemoryConfig {
    fn default() -> (c: DeltaMemoryConfig)
        ensures
            c.rank == 8,
    {
        DeltaMemoryConfig { rank: 8 }
    }
}

/// A memory's state: its matrix, row by row, and the number of writes to it.
#[derive(Debug)]
pub struct DeltaMemoryState {
    pub config: DeltaMemoryConfig,
    pub state: Vec<u32>,
    pub update_count: u64,
}

/// What a memory stands for: its settings, its matrix and the number of writes.
#[verifier::ext_equal]
pub struct MemoryView {
    pub config: DeltaMemoryConfig,
    pub state: Seq<u32>,
    pub update_count: u64,
}

/// The contents of a memory, without its settings.
#[verifier::ext_equal]
pub struct Contents {
    pub state: Seq<u32>,
    pub update_count: u64,
}

impl MemoryView {
    /// The contents.
    pub open spec fn contents(self) -> Contents {
        Contents { state: self.state, update_count: self.update_count }
    }
}

/// A copy of a memory's contents.
#[derive(Debug)]
pub struct DeltaMemorySnapshot {
    pub state: Vec<u32>,
    pub update_count: u64,
}

impl View for DeltaMemoryState {
    type V = MemoryView;

    open spec fn view(&self) -> MemoryView {
        MemoryView {
            config: self.config,
            state: self.state@,
            update_count: self.update_count,
        }
    }
}

impl View for DeltaMemorySnapshot {
    type V = Contents;

    open spec fn view(&self) -> Contents {
        Contents { state: self.state@, update_count: self.update_count }
    }
}

/// A memory of zeros.
pub open spec fn blank(config: DeltaMemoryConfig) -> MemoryView {
    MemoryView {
        config,
        state: Seq::new((config.rank * config.rank) as nat, |i: int| 0u32),
        update_count: 0,
    }
}

fn zeros(count: usize) -> (r: Vec<u32>)
    ensures
        r@ == Seq::new(count as nat, |i: int| 0u32),
{
    let mut r: Vec<u32> = Vec::new();
    let mut i: usize = 0;
    while i < count
        invariant
            i <= count,
            r@ =~= Seq::new(i as nat, |i: int| 0u32),
        decreases count - i,
    {
        r.push(0);
        i = i + 1;
    }
    r
}

impl DeltaMemoryState {
    /// A square matrix of the configured rank.
    pub open spec fn wf(self) -> bool {
        self.state@.len() == self.config.rank * self.config.rank
    }

    /// A memory of zeros.
    pub fn new(config: DeltaMemoryConfig) -> (m: DeltaMemoryState)
        requires
            config.rank * config.rank <= usize::MAX,
        ensures
            m.wf(),
            m@ == blank(config),
    {
        DeltaMemoryState { config, state: zeros(config.rank * config.rank), update_count: 0 }
    }

    /// Forget everything.
    pub fn reset(&mut self)
        requires
            old(self).config.rank * old(self).config.rank <= usize::MAX,
        ensures
            final(self).wf(),
            final(self)@ == blank(old(self).config),
    {
        self.state = zeros(self.config.rank * self.config.rank);
        self.update_count = 0;
    }

    /// Put the matrix that a write computed in place, and count the write. A matrix of another
    /// size is refused.
    pub fn store(&mut self, state: Vec<u32>) -> (ok: bool)
        requires
            old(self).wf(),
            old(self).update_count < u64::MAX,
        ensures
            ok == (state@.len() == old(self).state@.len()),
            final(self).wf(),
            ok ==> final(self)@ == (MemoryView {
                config: old(self).config,
                state: state@,
                update_count: (old(self).update_count + 1) as u64,
            }),
            !ok ==> final(self)@ == old(self)@,
    {
        if state.len() != self.state.len() {
            return false;
        }
        self.state = state;
        self.update_count = self.update_count + 1;
        true
    }

    /// How often the memory was written to.
    pub fn update_count(&self) -> (n: u64)
        ensures
            n == self.update_count,
    {
        self.update_count
    }

    /// A copy of the contents.
    pub fn snapshot(&self) -> (s: DeltaMemorySnapshot)
        ensures
            s@ == self@.contents(),
    {
        let mut state: Vec<u32> = Vec::new();
        let mut i: usize = 0;
        while i < self.state.len()
            invariant
                i <= self.state@.len(),
                state@ =~= self.state@.take(i as int),
            decreases self.state@.len() - i,
        {
            state.push(self.state[i]);
            i = i + 1;
        }
        assert(state@ =~= self.state@);
        DeltaMemorySnapshot { state, update_count: self.update_count }
    }
}

} // verus!
