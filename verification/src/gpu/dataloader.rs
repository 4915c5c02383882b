//! Training data: batching, shuffling and next-token pairs.
//!
//! For next-token prediction the inputs are `tokens[:-1]` and the targets `tokens[1:]`.

use vstd::prelude::*;

use crate::text::prefixed;
use crate::types;
use crate::types::Rng;

verus! {

/// Single training sample.
#[derive(Clone, Debug)]
pub struct TrainingSample {
    pub tokens: Vec<usize>,
}

/// Batches training samples for GPU consumption.
///
/// Handles shuffling, padding, and sequence length truncation.
#[derive(Debug)]
pub struct DataLoader {
    pub samples: Vec<TrainingSample>,
    pub batch_size: usize,
    pub seq_len: usize,
    pub pad_id: usize,
    pub rng: Rng,
}

/// Errors during dataloader operations. What went wrong outside is kept as its text.
#[derive(Debug)]
pub enum DataLoaderError {
    Io(String),
    Json(String),
    NoSamples,
}

impl DataLoaderError {
    /// What a message of this error says.
    pub open spec fn text(self) -> Seq<char> {
        match self {
            DataLoaderError::Io(e) => "IO error: "@ + e@,
            DataLoaderError::Json(e) => "JSON error: "@ + e@,
            DataLoaderError::NoSamples => "No training samples found"@,
        }
    }

    /// The message of this error.
    pub fn message(&self) -> (s: String)
        ensures
            s@ == self.text(),
    {
        match self {
            DataLoaderError::Io(e) => prefixed("IO error: ", e.as_str()),
            DataLoaderError::Json(e) => prefixed("JSON error: ", e.as_str()),
            DataLoaderError::NoSamples => "No training samples found".to_string(),
        }
    }
}

/// The inputs of one sample: its tokens up to the sequence length, then padding. The last
/// token has no target and is no input.
pub open spec fn input_row(tokens: Seq<usize>, seq_len: nat, pad: usize) -> Seq<u32> {
    Seq::new(
        seq_len,
        |t: int|
            if t + 1 < tokens.len() {
                tokens[t] as u32
            } else {
                pad as u32
            },
    )
}

/// The targets of one sample: the token after each input, then padding.
pub open spec fn target_row(tokens: Seq<usize>, seq_len: nat, pad: usize) -> Seq<u32> {
    Seq::new(
        seq_len,
        |t: int|
            if t + 1 < tokens.len() {
                tokens[t + 1] as u32
            } else {
                pad as u32
            },
    )
}

/// The inputs of the samples from `from` up to `to`, one after another.
pub open spec fn batch_inputs(
    samples: Seq<TrainingSample>,
    from: int,
    to: int,
    seq_len: nat,
    pad: usize,
) -> Seq<u32>
    decreases to - from,
{
    if to <= from {
        seq![]
    } else {
        batch_inputs(samples, from, to - 1, seq_len, pad) + input_row(
            samples[to - 1].tokens@,
            seq_len,
            pad,
        )
    }
}

/// The targets of the samples from `from` up to `to`, one after another.
pub open spec fn batch_targets(
    samples: Seq<TrainingSample>,
    from: int,
    to: int,
    seq_len: nat,
    pad: usize,
) -> Seq<u32>
    decreases to - from,
{
    if to <= from {
        seq![]
    } else {
        batch_targets(samples, from, to - 1, seq_len, pad) + target_row(
            samples[to - 1].tokens@,
            seq_len,
            pad,
        )
    }
}

/// A list with two places exchanged.
pub open spec fn exchanged<T>(s: Seq<T>, i: int, j: int) -> Seq<T> {
    s.update(i, s[j]).update(j, s[i])
}

/// The place that place `i` is exchanged with when the generator is at `state`.
pub open spec fn partner(state: u64, i: int) -> int {
    (types::xorshift(state) as usize) as int % (i + 1)
}

/// A list and a generator after the exchanges from place `i` down to the second place.
pub open spec fn shuffled<T>(s: Seq<T>, state: u64, i: nat) -> (Seq<T>, u64)
    decreases i,
{
    if i == 0 {
        (s, state)
    } else {
        shuffled(
            exchanged(s, i as int, partner(state, i as int)),
            types::xorshift(state),
            (i - 1) as nat,
        )
    }
}

/// A list and a generator after a whole shuffle.
pub open spec fn shuffle_of<T>(s: Seq<T>, state: u64) -> (Seq<T>, u64) {
    if s.len() <= 1 {
        (s, state)
    } else {
        shuffled(s, state, (s.len() - 1) as nat)
    }
}

/// Where batch `k` ends.
pub open spec fn batch_end(k: int, batch_size: int, n: int) -> int {
    if (k + 1) * batch_size < n {
        (k + 1) * batch_size
    } else {
        n
    }
}

fn push_row(
    tokens: &Vec<usize>,
    seq_len: usize,
    pad: usize,
    inputs: &mut Vec<u32>,
    targets: &mut Vec<u32>,
)
    ensures
        final(inputs)@ == old(inputs)@ + input_row(tokens@, seq_len as nat, pad),
        final(targets)@ == old(targets)@ + target_row(tokens@, seq_len as nat, pad),
{
    let n: usize = tokens.len();
    let mut t: usize = 0;
    while t < seq_len
        invariant
            t <= seq_len,
            n == tokens@.len(),
            inputs@ =~= old(inputs)@ + input_row(tokens@, seq_len as nat, pad).take(t as int),
            targets@ =~= old(targets)@ + target_row(tokens@, seq_len as nat, pad).take(t as int),
        decreases seq_len - t,
    {
        if n >= 2 && t < n - 1 {
            inputs.push(tokens[t] as u32);
            targets.push(tokens[t + 1] as u32);
        } else {
            inputs.push(pad as u32);
            targets.push(pad as u32);
        }
        t = t + 1;
    }
    assert(input_row(tokens@, seq_len as nat, pad).take(seq_len as int) =~= input_row(
        tokens@,
        seq_len as nat,
        pad,
    ));
    assert(target_row(tokens@, seq_len as nat, pad).take(seq_len as int) =~= target_row(
        tokens@,
        seq_len as nat,
        pad,
    ));
}

impl DataLoader {
    /// Create dataloader from in-memory samples.
    pub fn from_samples(
        samples: Vec<TrainingSample>,
        batch_size: usize,
        seq_len: usize,
        pad_id: usize,
    ) -> (r: Result<DataLoader, DataLoaderError>)
        ensures
            samples@.len() == 0 ==> r == Err::<DataLoader, DataLoaderError>(
                DataLoaderError::NoSamples,
            ),
            samples@.len() > 0 ==> (r matches Ok(d) && d.samples@ == samples@ && d.batch_size
                == batch_size && d.seq_len == seq_len && d.pad_id == pad_id && d.rng.state == 42),
    {
        if samples.len() == 0 {
            return Err(DataLoaderError::NoSamples);
        }
        Ok(DataLoader { samples, batch_size, seq_len, pad_id, rng: Rng::new(42) })
    }

    /// Number of samples.
    pub fn len(&self) -> (n: usize)
        ensures
            n == self.samples@.len(),
    {
        self.samples.len()
    }

    /// Check if empty.
    pub fn is_empty(&self) -> (b: bool)
        ensures
            b == (self.samples@.len() == 0),
    {
        self.samples.len() == 0
    }

    /// Number of complete batches.
    pub fn num_batches(&self) -> (n: usize)
        requires
            self.batch_size > 0,
        ensures
            n == self.samples@.len() / self.batch_size as nat,
    {
        self.samples.len() / self.batch_size
    }

    /// Shuffle samples in-place using Fisher-Yates.
    pub fn shuffle(&mut self)
        ensures
            (final(self).samples@, final(self).rng.state) == shuffle_of(
                old(self).samples@,
                old(self).rng.state,
            ),
            final(self).samples@.len() == old(self).samples@.len(),
            final(self).batch_size == old(self).batch_size,
            final(self).seq_len == old(self).seq_len,
            final(self).pad_id == old(self).pad_id,
    {
        let n: usize = self.samples.len();
        if n <= 1 {
            return;
        }
        let mut i: usize = n - 1;
        while i > 0
            invariant
                i < n == self.samples@.len(),
                shuffled(old(self).samples@, old(self).rng.state, (n - 1) as nat) == shuffled(
                    self.samples@,
                    self.rng.state,
                    i as nat,
                ),
                self.samples@.len() == old(self).samples@.len(),
                self.batch_size == old(self).batch_size,
                self.seq_len == old(self).seq_len,
                self.pad_id == old(self).pad_id,
            decreases i,
        {
            let j: usize = (self.rng.next() as usize) % (i + 1);
            let ghost before = self.samples@;
            let mut held = TrainingSample { tokens: Vec::new() };
            std::mem::swap(&mut self.samples[i], &mut held);
            if j != i {
                std::mem::swap(&mut self.samples[j], &mut held);
            }
            std::mem::swap(&mut self.samples[i], &mut held);
            assert(self.samples@ =~= exchanged(before, i as int, j as int));
            i = i - 1;
        }
    }

    fn build_batch(&self, from: usize, to: usize) -> (r: (Vec<u32>, Vec<u32>))
        requires
            from <= to <= self.samples@.len(),
        ensures
            r.0@ == batch_inputs(
                self.samples@,
                from as int,
                to as int,
                self.seq_len as nat,
                self.pad_id,
            ),
            r.1@ == batch_targets(
                self.samples@,
                from as int,
                to as int,
                self.seq_len as nat,
                self.pad_id,
            ),
    {
        let mut inputs: Vec<u32> = Vec::new();
        let mut targets: Vec<u32> = Vec::new();
        let mut i: usize = from;
        while i < to
            invariant
                from <= i <= to <= self.samples@.len(),
                inputs@ =~= batch_inputs(
                    self.samples@,
                    from as int,
                    i as int,
                    self.seq_len as nat,
                    self.pad_id,
                ),
                targets@ =~= batch_targets(
                    self.samples@,
                    from as int,
                    i as int,
                    self.seq_len as nat,
                    self.pad_id,
                ),
            decreases to - i,
        {
            push_row(
                &self.samples[i].tokens,
                self.seq_len,
                self.pad_id,
                &mut inputs,
                &mut targets,
            );
            i = i + 1;
        }
        (inputs, targets)
    }

    /// All batches. Shuffles samples first.
    ///
    /// Each batch is (input_ids, target_ids) for next-token prediction. The last one holds what
    /// is left and may be smaller.
    pub fn batches(&mut self) -> (r: Vec<(Vec<u32>, Vec<u32>)>)
        requires
            old(self).batch_size > 0,
        ensures
            (final(self).samples@, final(self).rng.state) == shuffle_of(
                old(self).samples@,
                old(self).rng.state,
            ),
            final(self).samples@.len() == old(self).samples@.len(),
            final(self).batch_size == old(self).batch_size,
            final(self).seq_len == old(self).seq_len,
            final(self).pad_id == old(self).pad_id,
            final(self).samples@.len() <= r@.len() * final(self).batch_size,
            r@.len() > 0 ==> (r@.len() - 1) * final(self).batch_size < final(self).samples@.len(),
            forall|k: int|
                0 <= k < r@.len() ==> {
                    let n = final(self).samples@.len() as int;
                    let bs = final(self).batch_size as int;
                    &&& (#[trigger] r@[k]).0@ == batch_inputs(
                        final(self).samples@,
                        k * bs,
                        batch_end(k, bs, n),
                        final(self).seq_len as nat,
                        final(self).pad_id,
                    )
                    &&& r@[k].1@ == batch_targets(
                        final(self).samples@,
                        k * bs,
                        batch_end(k, bs, n),
                        final(self).seq_len as nat,
                        final(self).pad_id,
                    )
                },
    {
        self.shuffle();
        let n: usize = self.samples.len();
        let bs: usize = self.batch_size;
        let mut r: Vec<(Vec<u32>, Vec<u32>)> = Vec::new();
        let mut from: usize = 0;
        assert(r@.len() * bs == 0) by (nonlinear_arith)
            requires
                r@.len() == 0,
        ;
        while from < n
            invariant
                n == self.samples@.len(),
                bs == self.batch_size,
                bs > 0,
                from <= n,
                from < n ==> from == r@.len() * bs,
                n <= from ==> n <= r@.len() * bs,
                r@.len() > 0 ==> (r@.len() - 1) * bs < n,
                forall|k: int|
                    0 <= k < r@.len() ==> {
                        &&& (#[trigger] r@[k]).0@ == batch_inputs(
                            self.samples@,
                            k * bs,
                            batch_end(k, bs as int, n as int),
                            self.seq_len as nat,
                            self.pad_id,
                        )
                        &&& r@[k].1@ == batch_targets(
                            self.samples@,
                            k * bs,
                            batch_end(k, bs as int, n as int),
                            self.seq_len as nat,
                            self.pad_id,
                        )
                    },
            decreases n - from,
        {
            let to: usize = if n - from < bs {
                n
            } else {
                from + bs
            };
            proof {
                let k = r@.len() as int;
                assert((k + 1) * bs == k * bs + bs) by (nonlinear_arith);
                assert(to == batch_end(k, bs as int, n as int));
            }
            let batch = self.build_batch(from, to);
            r.push(batch);
            from = to;
        }
        r
    }

    /// Get a single batch for a specific range (for deterministic testing).
    ///
    /// No shuffling — returns samples in order.
    pub fn get_batch(&self, start: usize) -> (r: Option<(Vec<u32>, Vec<u32>)>)
        ensures
            start + self.batch_size > self.samples@.len() ==> r is None,
            start + self.batch_size <= self.samples@.len() ==> (r matches Some(b) && b.0@
                == batch_inputs(
                self.samples@,
                start as int,
                start + self.batch_size,
                self.seq_len as nat,
                self.pad_id,
            ) && b.1@ == batch_targets(
                self.samples@,
                start as int,
                start + self.batch_size,
                self.seq_len as nat,
                self.pad_id,
            )),
    {
        let n: usize = self.samples.len();
        if self.batch_size > n || start > n - self.batch_size {
            return None;
        }
        Some(self.build_batch(start, start + self.batch_size))
    }
}

/// Row `k` of a batch: its tokens from place `k * seq_len` on, up to the sequence length.
pub open spec fn batch_row(ids: Seq<u32>, seq_len: int, k: int) -> Seq<usize> {
    ids.subrange(k * seq_len, batch_end(k, seq_len, ids.len() as int)).map_values(
        |t: u32| t as usize,
    )
}

/// Cut a batch into the rows that a forward pass takes, one sample each.
pub fn batch_rows(ids: &[u32], seq_len: usize) -> (rows: Vec<Vec<usize>>)
    requires
        seq_len > 0,
    ensures
        ids@.len() <= rows@.len() * seq_len,
        rows@.len() > 0 ==> (rows@.len() - 1) * seq_len < ids@.len(),
        forall|k: int|
            0 <= k < rows@.len() ==> (#[trigger] rows@[k])@ == batch_row(
                ids@,
                seq_len as int,
                k,
            ) && 0 < rows@[k]@.len() <= seq_len,
{
    let n: usize = ids.len();
    let mut rows: Vec<Vec<usize>> = Vec::new();
    let mut from: usize = 0;
    assert(rows@.len() * seq_len == 0) by (nonlinear_arith)
        requires
            rows@.len() == 0,
    ;
    while from < n
        invariant
            n == ids@.len(),
            seq_len > 0,
            from <= n,
            from < n ==> from == rows@.len() * seq_len,
            n <= from ==> n <= rows@.len() * seq_len,
            rows@.len() > 0 ==> (rows@.len() - 1) * seq_len < n,
            forall|k: int|
                0 <= k < rows@.len() ==> (#[trigger] rows@[k])@ == batch_row(
                    ids@,
                    seq_len as int,
                    k,
                ) && 0 < rows@[k]@.len() <= seq_len,
        decreases n - from,
    {
        let to: usize = if n - from < seq_len {
            n
        } else {
            from + seq_len
        };
        let ghost k = rows@.len() as int;
        proof {
            assert((k + 1) * seq_len == k * seq_len + seq_len) by (nonlinear_arith);
            assert(to == batch_end(k, seq_len as int, n as int));
        }
        let mut row: Vec<usize> = Vec::new();
        let mut i: usize = from;
        while i < to
            invariant
                from <= i <= to <= ids@.len(),
                row@ =~= ids@.subrange(from as int, i as int).map_values(|t: u32| t as usize),
            decreases to - i,
        {
            row.push(ids[i] as usize);
            i = i + 1;
        }
        rows.push(row);
        from = to;
    }
    rows
}

/// A batch and its rows agree: row `k` of the inputs and of the targets is that of the `k`-th
/// sample of the batch.
pub proof fn law_rows_are_samples(
    samples: Seq<TrainingSample>,
    from: int,
    to: int,
    seq_len: nat,
    pad: usize,
    k: int,
)
    requires
        0 <= from <= to <= samples.len(),
        0 <= k < to - from,
    ensures
        batch_inputs(samples, from, to, seq_len, pad).len() == (to - from) * seq_len,
        batch_targets(samples, from, to, seq_len, pad).len() == (to - from) * seq_len,
        batch_row(batch_inputs(samples, from, to, seq_len, pad), seq_len as int, k) == input_row(
            samples[from + k].tokens@,
            seq_len,
            pad,
        ).map_values(|t: u32| t as usize),
        batch_row(batch_targets(samples, from, to, seq_len, pad), seq_len as int, k) == target_row(
            samples[from + k].tokens@,
            seq_len,
            pad,
        ).map_values(|t: u32| t as usize),
    decreases to - from,
{
    let l = seq_len as int;
    let w = to - from;
    let a = batch_inputs(samples, from, to - 1, seq_len, pad);
    let b = batch_targets(samples, from, to - 1, seq_len, pad);
    let inputs = batch_inputs(samples, from, to, seq_len, pad);
    let targets = batch_targets(samples, from, to, seq_len, pad);
    lemma_batch_len(samples, from, to - 1, seq_len, pad);
    lemma_batch_len(samples, from, to, seq_len, pad);
    assert((w - 1) * l == w * l - l) by (nonlinear_arith);
    assert((k + 1) * l == k * l + l) by (nonlinear_arith);
    assert(0 <= k * l && (k + 1) * l <= w * l && (k < w - 1 ==> (k + 1) * l <= (w - 1) * l))
        by (nonlinear_arith)
        requires
            0 <= k < w,
            0 <= l,
    ;
    assert(batch_end(k, l, w * l) == (k + 1) * l);
    if k < w - 1 {
        law_rows_are_samples(samples, from, to - 1, seq_len, pad, k);
        assert(inputs.subrange(k * l, k * l + l) =~= a.subrange(k * l, k * l + l));
        assert(targets.subrange(k * l, k * l + l) =~= b.subrange(k * l, k * l + l));
    } else {
        assert(inputs.subrange(k * l, k * l + l) =~= input_row(
            samples[to - 1].tokens@,
            seq_len,
            pad,
        ));
        assert(targets.subrange(k * l, k * l + l) =~= target_row(
            samples[to - 1].tokens@,
            seq_len,
            pad,
        ));
    }
}

proof fn lemma_batch_len(
    samples: Seq<TrainingSample>,
    from: int,
    to: int,
    seq_len: nat,
    pad: usize,
)
    requires
        from <= to,
    ensures
        batch_inputs(samples, from, to, seq_len, pad).len() == (to - from) * seq_len,
        batch_targets(samples, from, to, seq_len, pad).len() == (to - from) * seq_len,
    decreases to - from,
{
    let l = seq_len as int;
    let w = to - from;
    if from < to {
        lemma_batch_len(samples, from, to - 1, seq_len, pad);
        assert((w - 1) * l == w * l - l) by (nonlinear_arith);
    } else {
        assert(w * l == 0) by (nonlinear_arith)
            requires
                w == 0,
        ;
    }
}

proof fn lemma_exchange_keeps<T>(s: Seq<T>, i: int, j: int)
    requires
        0 <= i < s.len(),
        0 <= j < s.len(),
    ensures
        exchanged(s, i, j).len() == s.len(),
        exchanged(s, i, j).to_multiset() == s.to_multiset(),
{
    vstd::seq_lib::lemma_multiset_commutative(s, s);
    let t = exchanged(s, i, j);
    if i == j {
        assert(t =~= s);
    } else {
        let lo = if i < j {
            i
        } else {
            j
        };
        let hi = if i < j {
            j
        } else {
            i
        };
        let a = s.subrange(0, lo);
        let b = s.subrange(lo + 1, hi);
        let c = s.subrange(hi + 1, s.len() as int);
        let x = seq![s[lo]];
        let y = seq![s[hi]];
        assert(s =~= a + x + b + y + c);
        assert(t =~= a + y + b + x + c);
        vstd::seq_lib::lemma_multiset_commutative(a + x + b + y, c);
        vstd::seq_lib::lemma_multiset_commutative(a + x + b, y);
        vstd::seq_lib::lemma_multiset_commutative(a + x, b);
        vstd::seq_lib::lemma_multiset_commutative(a, x);
        vstd::seq_lib::lemma_multiset_commutative(a + y + b + x, c);
        vstd::seq_lib::lemma_multiset_commutative(a + y + b, x);
        vstd::seq_lib::lemma_multiset_commutative(a + y, b);
        vstd::seq_lib::lemma_multiset_commutative(a, y);
        assert(s.to_multiset() =~= t.to_multiset());
    }
}

proof fn lemma_shuffled_keeps<T>(s: Seq<T>, state: u64, i: nat)
    requires
        i < s.len(),
    ensures
        shuffled(s, state, i).0.len() == s.len(),
        shuffled(s, state, i).0.to_multiset() == s.to_multiset(),
    decreases i,
{
    if i > 0 {
        let j = partner(state, i as int);
        lemma_exchange_keeps(s, i as int, j);
        lemma_shuffled_keeps(
            exchanged(s, i as int, j),
            types::xorshift(state),
            (i - 1) as nat,
        );
    }
}

/// A shuffle loses no sample and adds none.
pub proof fn law_shuffle_is_a_permutation<T>(s: Seq<T>, state: u64)
    ensures
        shuffle_of(s, state).0.to_multiset() == s.to_multiset(),
        shuffle_of(s, state).0.len() == s.len(),
{
    if s.len() > 1 {
        lemma_shuffled_keeps(s, state, (s.len() - 1) as nat);
    }
}

/// Inputs and targets of a batch have one entry per sample and position.
pub proof fn law_batch_shape(
    samples: Seq<TrainingSample>,
    from: int,
    to: int,
    seq_len: nat,
    pad: usize,
)
    requires
        from <= to,
    ensures
        batch_inputs(samples, from, to, seq_len, pad).len() == (to - from) * seq_len,
        batch_targets(samples, from, to, seq_len, pad).len() == (to - from) * seq_len,
    decreases to - from,
{
    if from < to {
        law_batch_shape(samples, from, to - 1, seq_len, pad);
        assert((to - from) * seq_len == (to - 1 - from) * seq_len + seq_len) by (nonlinear_arith);
    } else {
        assert(0 * seq_len == 0);
    }
}

/// Within a sample the target at a position is the input at the next one.
pub proof fn law_target_is_next_input(tokens: Seq<usize>, seq_len: nat, pad: usize, t: int)
    requires
        0 <= t,
        t + 1 < seq_len,
        t + 2 < tokens.len(),
    ensures
        target_row(tokens, seq_len, pad)[t] == input_row(tokens, seq_len, pad)[t + 1],
{
}

/// Each place is exchanged with one at or before it, the one that the generator's number leaves
/// as a remainder.
pub proof fn law_partner_is_a_remainder(state: u64, i: int)
    requires
        0 <= i < usize::MAX,
    ensures
        0 <= partner(state, i) <= i,
        ((types::xorshift(state) as usize) as int - partner(state, i)) % (i + 1) == 0,
{
    let x = (types::xorshift(state) as usize) as int;
    let d = i + 1;
    vstd::arithmetic::div_mod::lemma_fundamental_div_mod(x, d);
    let q = x / d;
    assert(x - x % d == q * d) by (nonlinear_arith)
        requires
            x == d * q + x % d,
    ;
    vstd::arithmetic::div_mod::lemma_mod_multiples_basic(q, d);
}

/// Exchanging two places swaps what they hold and nothing else.
pub proof fn law_exchange_swaps<T>(s: Seq<T>, i: int, j: int, k: int)
    requires
        0 <= i < s.len(),
        0 <= j < s.len(),
        0 <= k < s.len(),
    ensures
        exchanged(s, i, j)[i] == s[j],
        exchanged(s, i, j)[j] == s[i],
        k != i && k != j ==> exchanged(s, i, j)[k] == s[k],
        exchanged(s, i, j).len() == s.len(),
{
}

/// A shuffle starts with the last place, and goes on with the generator one number further and the
/// place before; the generator has moved on by one number for each place but the first.
pub proof fn law_shuffle_starts_at_the_end<T>(s: Seq<T>, state: u64)
    requires
        s.len() > 1,
    ensures
        shuffle_of(s, state) == shuffled(
            exchanged(s, s.len() - 1, partner(state, s.len() - 1)),
            types::xorshift(state),
            (s.len() - 2) as nat,
        ),
        shuffle_of(s, state).1 == types::xorshift_n(state, (s.len() - 1) as nat),
{
    lemma_shuffle_draws(s, state, (s.len() - 1) as nat);
}

proof fn lemma_shuffle_draws<T>(s: Seq<T>, state: u64, i: nat)
    ensures
        shuffled(s, state, i).1 == types::xorshift_n(state, i),
    decreases i,
{
    if i > 0 {
        lemma_shuffle_draws(
            exchanged(s, i as int, partner(state, i as int)),
            types::xorshift(state),
            (i - 1) as nat,
        );
        types::law_draws_follow_each_other(state, 1, (i - 1) as nat);
    }
}

/// The batches follow one another without a gap, all of the full size but the last, which ends with
/// the last sample.
pub proof fn law_batches_partition_the_samples(k: int, batch_size: int, n: int)
    requires
        0 <= k,
        0 < batch_size,
        k * batch_size < n,
    ensures
        k * batch_size < batch_end(k, batch_size, n) <= n,
        batch_end(k, batch_size, n) - k * batch_size <= batch_size,
        batch_end(k, batch_size, n) < n ==> batch_end(k, batch_size, n) == (k + 1) * batch_size,
        (k + 1) * batch_size >= n ==> batch_end(k, batch_size, n) == n,
{
    assert((k + 1) * batch_size == k * batch_size + batch_size) by (nonlinear_arith);
}

/// A sample's inputs are its tokens in order without the last, its targets the tokens after them;
/// what is left of the sequence is padding in both.
pub proof fn law_rows_shift_by_one(tokens: Seq<usize>, seq_len: nat, pad: usize, t: int)
    requires
        0 <= t < seq_len,
        pad <= u32::MAX,
        forall|i: int| 0 <= i < tokens.len() ==> #[trigger] tokens[i] <= u32::MAX,
    ensures
        input_row(tokens, seq_len, pad).len() == seq_len,
        target_row(tokens, seq_len, pad).len() == seq_len,
        t < tokens.len() - 1 ==> input_row(tokens, seq_len, pad)[t] == tokens[t] && target_row(
            tokens,
            seq_len,
            pad,
        )[t] == tokens[t + 1],
        t >= tokens.len() - 1 ==> input_row(tokens, seq_len, pad)[t] == pad && target_row(
            tokens,
            seq_len,
            pad,
        )[t] == pad,
{
    if t < tokens.len() - 1 {
        assert(tokens[t] <= u32::MAX && tokens[t + 1] <= u32::MAX);
    }
}

} // verus!
