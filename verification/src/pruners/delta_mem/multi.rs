//! One memory per domain.
//!
//! Each domain gets its own independent memory. Domains are determined by the prompt router,
//! not by learned routing.

use vstd::prelude::*;

use crate::pruners::delta_mem::state;
use crate::pruners::delta_mem::state::DeltaMemoryConfig;
use crate::pruners::delta_mem::state::DeltaMemorySnapshot;
use crate::pruners::delta_mem::state::DeltaMemoryState;
use crate::pruners::delta_mem::state::MemoryView;
use crate::text::chars_of;
use crate::text::same_chars;

verus! {

/// Aggregation strategy for cross-domain readouts.
#[derive(Clone, Copy, Debug, PartialEq, Eq, Structural)]
pub enum AggregationStrategy {
    /// Use only the routed domain's readout (no cross-domain).
    RoutedOnly,
    /// Weight the readouts of all domains by how often they were written.
    BanditWeighted,
}

/// The memory of a domain.
#[derive(Debug)]
pub struct DomainMemory {
    pub domain: String,
    pub memory: DeltaMemoryState,
}

/// A copy of a domain's memory.
#[derive(Debug)]
pub struct DomainSnapshot {
    pub domain: String,
    pub snapshot: DeltaMemorySnapshot,
}

/// Which memories a readout is made of.
#[derive(Debug)]
pub enum ReadPlan {
    /// The readout of one memory, by its place.
    Routed(usize),
    /// The weighted mean of the readouts of all memories, by their weights. Where all weights are
    /// zero nothing was ever written, and the readout is all zeros.
    Weighted(Vec<u64>),
}

/// Multi-domain associative memory.
#[derive(Debug)]
pub struct MultiDomainMemory {
    states: Vec<DomainMemory>,
    config: DeltaMemoryConfig,
}

impl MultiDomainMemory {
    /// Domains are distinct, and every memory has the configured shape.
    pub closed spec fn wf(self) -> bool {
        &&& self.config.rank * self.config.rank <= usize::MAX
        &&& forall|i: int, j: int|
            0 <= i < j < self.states@.len() ==> (#[trigger] self.states@[i]).domain@ != (
            #[trigger] self.states@[j]).domain@
        &&& forall|i: int|
            0 <= i < self.states@.len() ==> {
                &&& (#[trigger] self.states@[i]).memory.wf()
                &&& self.states@[i].memory.config == self.config
            }
    }

    /// The domains in the order they were first written to.
    pub closed spec fn names(self) -> Seq<Seq<char>> {
        self.states@.map_values(|s: DomainMemory| s.domain@)
    }

    /// The memory at a place.
    pub closed spec fn memory_at(self, i: int) -> MemoryView {
        self.states@[i].memory@
    }

    /// The settings of new memories.
    pub closed spec fn settings(self) -> DeltaMemoryConfig {
        self.config
    }

    /// Create a new multi-domain memory.
    pub fn new(config: DeltaMemoryConfig) -> (m: MultiDomainMemory)
        requires
            config.rank * config.rank <= usize::MAX,
        ensures
            m.wf(),
            m.names() == Seq::<Seq<char>>::empty(),
            m.settings() == config,
    {
        let m = MultiDomainMemory { states: Vec::new(), config };
        assert(m.names() =~= Seq::<Seq<char>>::empty());
        m
    }

    /// The place of a domain, if it has a memory.
    pub fn find(&self, domain: &str) -> (r: Option<usize>)
        requires
            self.wf(),
        ensures
            r matches Some(i) ==> i < self.names().len() && self.names()[i as int] == domain@,
            r is None ==> !self.names().contains(domain@),
    {
        let wanted = chars_of(domain);
        let mut i: usize = 0;
        while i < self.states.len()
            invariant
                i <= self.states@.len(),
                wanted@ == domain@,
                forall|j: int| 0 <= j < i ==> (#[trigger] self.states@[j]).domain@ != domain@,
            decreases self.states@.len() - i,
        {
            let name = chars_of(self.states[i].domain.as_str());
            if same_chars(name.as_slice(), wanted.as_slice()) {
                assert(self.names()[i as int] == self.states@[i as int].domain@);
                return Some(i);
            }
            i = i + 1;
        }
        assert forall|j: int| 0 <= j < self.names().len() implies #[trigger] self.names()[j]
            != domain@ by {
            assert(self.names()[j] == self.states@[j].domain@);
        }
        None
    }

    /// The memory of a domain, if it has one.
    pub fn read_domain(&self, domain: &str) -> (r: Option<&DeltaMemoryState>)
        requires
            self.wf(),
        ensures
            r is Some == self.names().contains(domain@),
            r matches Some(m) ==> exists|i: int|
                0 <= i < self.names().len() && #[trigger] self.names()[i] == domain@ && m@
                    == self.memory_at(i),
    {
        match self.find(domain) {
            Some(i) => {
                assert(self.names()[i as int] == domain@);
                Some(&self.states[i].memory)
            },
            None => None,
        }
    }

    /// Get or create a domain's state.
    pub fn ensure_domain(&mut self, domain: &str)
        requires
            old(self).wf(),
        ensures
            final(self).wf(),
            final(self).settings() == old(self).settings(),
            old(self).names().contains(domain@) ==> final(self).names() == old(self).names(),
            !old(self).names().contains(domain@) ==> final(self).names() == old(self).names().push(
                domain@,
            ) && final(self).memory_at(old(self).names().len() as int) == state::blank(
                old(self).settings(),
            ),
            forall|i: int|
                0 <= i < old(self).names().len() ==> #[trigger] final(self).memory_at(i) == old(
                    self,
                ).memory_at(i),
    {
        match self.find(domain) {
            Some(i) => {
                assert(self.names()[i as int] == domain@);
            },
            None => {
                let ghost before = self.states@;
                let ghost names = self.names();
                let memory = DeltaMemoryState::new(self.config);
                self.states.push(DomainMemory { domain: domain.to_owned(), memory });
                assert(self.names() =~= names.push(domain@));
                assert forall|i: int| 0 <= i < before.len() implies (
                #[trigger] self.states@[i]).domain@ != domain@ by {
                    assert(names[i] == before[i].domain@);
                }
            },
        }
    }

    /// Put what a write to a domain computed in place, creating the domain if it doesn't exist.
    ///
    /// A matrix of another size is refused, and then only the domain is created.
    pub fn write_domain(&mut self, domain: &str, matrix: Vec<u32>) -> (ok: bool)
        requires
            old(self).wf(),
            forall|i: int|
                0 <= i < old(self).names().len() ==> (#[trigger] old(self).memory_at(
                    i,
                )).update_count < u64::MAX,
        ensures
            final(self).wf(),
            final(self).settings() == old(self).settings(),
            ok == (matrix@.len() == old(self).settings().rank * old(self).settings().rank),
            final(self).names() == (if old(self).names().contains(domain@) {
                old(self).names()
            } else {
                old(self).names().push(domain@)
            }),
            ok ==> exists|i: int|
                0 <= i < final(self).names().len() && #[trigger] final(self).names()[i] == domain@
                    && final(self).memory_at(i) == (MemoryView {
                    config: old(self).settings(),
                    state: matrix@,
                    update_count: (if i < old(self).names().len() {
                        old(self).memory_at(i).update_count + 1
                    } else {
                        1
                    }) as u64,
                }),
            forall|i: int|
                0 <= i < old(self).names().len() && #[trigger] old(self).names()[i] != domain@
                    ==> final(self).memory_at(i) == old(self).memory_at(i),
            !ok ==> forall|i: int|
                0 <= i < old(self).names().len() ==> #[trigger] final(self).memory_at(i) == old(
                    self,
                ).memory_at(i),
            !ok && !old(self).names().contains(domain@) ==> final(self).memory_at(
                old(self).names().len() as int,
            ) == state::blank(old(self).settings()),
    {
        self.ensure_domain(domain);
        let ghost mid = *self;
        proof {
            if !old(self).names().contains(domain@) {
                assert(self.names()[old(self).names().len() as int] == domain@);
            }
        }
        match self.find(domain) {
            Some(i) => {
                let ghost names = self.names();
                let ghost states = self.states@;
                assert(names[i as int] == domain@);
                proof {
                    if i < old(self).names().len() {
                        assert(old(self).memory_at(i as int).update_count < u64::MAX);
                    }
                }
                assert(states[i as int].memory@ == mid.memory_at(i as int));
                let ok: bool = self.states[i].memory.store(matrix);
                assert(self.names() =~= names);
                assert(self.names()[i as int] == domain@);
                assert forall|j: int|
                    0 <= j < old(self).names().len() && #[trigger] old(self).names()[j]
                        != domain@ implies self.memory_at(j) == old(self).memory_at(j) by {
                    assert(mid.memory_at(j) == old(self).memory_at(j));
                    assert(names[j] == old(self).names()[j]);
                    assert(j != i);
                }
                assert forall|j: int|
                    !ok && 0 <= j < names.len() implies #[trigger] self.memory_at(j)
                    == mid.memory_at(j) by {
                    if j == i {
                        assert(self.states@[j].memory@ == states[j].memory@);
                    }
                }
                proof {
                    if !ok && !old(self).names().contains(domain@) {
                        let n = old(self).names().len() as int;
                        assert(mid.memory_at(n) == state::blank(old(self).settings()));
                        assert(self.memory_at(n) == mid.memory_at(n));
                    }
                }
                ok
            },
            None => {
                assert(false);
                false
            },
        }
    }

    /// Snapshot all domain states.
    pub fn snapshot_all(&self) -> (r: Vec<DomainSnapshot>)
        requires
            self.wf(),
        ensures
            r@.len() == self.names().len(),
            forall|i: int|
                0 <= i < r@.len() ==> (#[trigger] r@[i]).domain@ == self.names()[i]
                    && r@[i].snapshot@ == self.memory_at(i).contents(),
    {
        let mut r: Vec<DomainSnapshot> = Vec::new();
        let mut i: usize = 0;
        while i < self.states.len()
            invariant
                i <= self.states@.len(),
                r@.len() == i,
                forall|j: int|
                    0 <= j < i ==> (#[trigger] r@[j]).domain@ == self.names()[j]
                        && r@[j].snapshot@ == self.memory_at(j).contents(),
            decreases self.states@.len() - i,
        {
            assert(self.names()[i as int] == self.states@[i as int].domain@);
            r.push(
                DomainSnapshot {
                    domain: self.states[i].domain.as_str().to_owned(),
                    snapshot: self.states[i].memory.snapshot(),
                },
            );
            i = i + 1;
        }
        r
    }

    /// Reset all domain states.
    pub fn reset_all(&mut self)
        requires
            old(self).wf(),
        ensures
            final(self).wf(),
            final(self).settings() == old(self).settings(),
            final(self).names() == old(self).names(),
            forall|i: int|
                0 <= i < final(self).names().len() ==> #[trigger] final(self).memory_at(i)
                    == state::blank(old(self).settings()),
    {
        let ghost names = self.names();
        let n: usize = self.states.len();
        let mut i: usize = 0;
        while i < n
            invariant
                i <= n == self.states@.len(),
                self.wf(),
                self.config == old(self).config,
                self.names() == names,
                forall|j: int|
                    0 <= j < i ==> (#[trigger] self.states@[j]).memory@ == state::blank(
                        self.config,
                    ),
            decreases n - i,
        {
            let ghost before = self.states@;
            self.states[i].memory.reset();
            assert(self.names() =~= names) by {
                assert forall|j: int| 0 <= j < n implies #[trigger] self.names()[j] == names[j] by {
                    assert(names[j] == before[j].domain@);
                }
            }
            i = i + 1;
        }
    }

    /// Reset a specific domain's state.
    pub fn reset_domain(&mut self, domain: &str)
        requires
            old(self).wf(),
        ensures
            final(self).wf(),
            final(self).settings() == old(self).settings(),
            final(self).names() == old(self).names(),
            forall|i: int|
                0 <= i < final(self).names().len() ==> #[trigger] final(self).memory_at(i) == (
                if old(self).names()[i] == domain@ {
                    state::blank(old(self).settings())
                } else {
                    old(self).memory_at(i)
                }),
    {
        match self.find(domain) {
            Some(i) => {
                let ghost names = self.names();
                let ghost before = self.states@;
                assert(names[i as int] == before[i as int].domain@);
                self.states[i].memory.reset();
                assert(self.names() =~= names) by {
                    assert forall|j: int| 0 <= j < names.len() implies #[trigger] self.names()[j]
                        == names[j] by {
                        assert(names[j] == before[j].domain@);
                    }
                }
                assert forall|j: int|
                    0 <= j < self.names().len() implies #[trigger] self.memory_at(j) == (
                if names[j] == domain@ {
                    state::blank(self.config)
                } else {
                    before[j].memory@
                }) by {
                    assert(names[j] == before[j].domain@);
                }
            },
            None => {
                assert forall|j: int| 0 <= j < self.names().len() implies #[trigger] self.names()[j]
                    != domain@ by {
                    assert(self.names().contains(self.names()[j]));
                }
            },
        }
    }

    /// Number of domains with memory states.
    pub fn domain_count(&self) -> (n: usize)
        ensures
            n == self.names().len(),
    {
        self.states.len()
    }

    /// Get domain names.
    pub fn domains(&self) -> (r: Vec<String>)
        ensures
            r@.map_values(|s: String| s@) == self.names(),
    {
        let mut r: Vec<String> = Vec::new();
        let mut i: usize = 0;
        while i < self.states.len()
            invariant
                i <= self.states@.len(),
                r@.len() == i,
                forall|j: int| 0 <= j < i ==> (#[trigger] r@[j])@ == self.states@[j].domain@,
            decreases self.states@.len() - i,
        {
            r.push(self.states[i].domain.as_str().to_owned());
            i = i + 1;
        }
        assert(r@.map_values(|s: String| s@) =~= self.names());
        r
    }

    /// Get config reference.
    pub fn config(&self) -> (c: &DeltaMemoryConfig)
        ensures
            *c == self.settings(),
    {
        &self.config
    }

    /// Which memories a readout for a domain is made of.
    ///
    /// `RoutedOnly`: the routed domain's. `BanditWeighted`: all domains', each weighted by its
    /// update count, so that a domain never written weighs nothing. There is none for a domain
    /// without a memory.
    pub fn read_aggregated(&self, domain: &str, strategy: AggregationStrategy) -> (r: Option<
        ReadPlan,
    >)
        requires
            self.wf(),
        ensures
            r is Some == self.names().contains(domain@),
            r matches Some(ReadPlan::Routed(i)) ==> strategy is RoutedOnly && i
                < self.names().len() && self.names()[i as int] == domain@,
            r matches Some(ReadPlan::Weighted(w)) ==> strategy is BanditWeighted && w@ == Seq::new(
                self.names().len(),
                |i: int| self.memory_at(i).update_count,
            ),
    {
        let routed: usize = match self.find(domain) {
            Some(i) => i,
            None => return None,
        };
        assert(self.names()[routed as int] == domain@);
        match strategy {
            AggregationStrategy::RoutedOnly => Some(ReadPlan::Routed(routed)),
            AggregationStrategy::BanditWeighted => {
                let mut w: Vec<u64> = Vec::new();
                let mut i: usize = 0;
                while i < self.states.len()
                    invariant
                        i <= self.states@.len(),
                        w@ =~= Seq::new(i as nat, |j: int| self.memory_at(j).update_count),
                    decreases self.states@.len() - i,
                {
                    w.push(self.states[i].memory.update_count());
                    i = i + 1;
                }
                Some(ReadPlan::Weighted(w))
            },
        }
    }
}

/// No domain has two memories.
pub proof fn law_domains_are_distinct(m: MultiDomainMemory)
    requires
        m.wf(),
    ensures
        m.names().no_duplicates(),
{
    assert forall|i: int, j: int|
        0 <= i < m.names().len() && 0 <= j < m.names().len() && i
            != j implies m.names()[i] != m.names()[j] by {
        assert(m.names()[i] == m.states@[i].domain@);
        assert(m.names()[j] == m.states@[j].domain@);
    }
}

} // verus!
