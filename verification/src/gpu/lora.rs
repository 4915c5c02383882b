//! LoRA adapters: their targets, their parameters, and the file format.
//!
//! Parameters are bit patterns of single-precision numbers.
//!
//! ```text
//! [magic(4) | version(4) | checksum(32) | payload...]
//! payload: [n_adapters(4) | rank(4) | alpha(4) | adapter_data...]
//! adapter_data: [in_dim(4) | out_dim(4) | a_f32s | b_f32s]
//! ```

use vstd::prelude::*;
use vstd::slice::slice_subrange;

use crate::text;
use crate::text::push_decimal;
use crate::text::push_text;
use crate::types::Config;

verus! {

/// File format version.
pub const LORA_VERSION: u32 = 1;

/// Number of adapters per layer.
pub const TARGET_COUNT: usize = 6;

/// Bytes before the payload: magic, version and checksum.
pub const HEADER_LEN: usize = 40;

/// Which weight matrices get LoRA adapters.
#[derive(Clone, Copy, Debug, PartialEq, Eq, Structural)]
pub enum LoraTarget {
    Q,
    K,
    V,
    O,
    Mlp1,
    Mlp2,
}

impl LoraTarget {
    /// The target's place within a layer.
    pub open spec fn place(self) -> int {
        match self {
            LoraTarget::Q => 0,
            LoraTarget::K => 1,
            LoraTarget::V => 2,
            LoraTarget::O => 3,
            LoraTarget::Mlp1 => 4,
            LoraTarget::Mlp2 => 5,
        }
    }

    /// All targets, in their order within a layer.
    pub fn all() -> (r: Vec<LoraTarget>)
        ensures
            r@.len() == TARGET_COUNT,
            forall|i: int| 0 <= i < r@.len() ==> (#[trigger] r@[i]).place() == i,
    {
        let mut r: Vec<LoraTarget> = Vec::new();
        r.push(LoraTarget::Q);
        r.push(LoraTarget::K);
        r.push(LoraTarget::V);
        r.push(LoraTarget::O);
        r.push(LoraTarget::Mlp1);
        r.push(LoraTarget::Mlp2);
        r
    }

    /// The target's place within a layer.
    pub fn index(&self) -> (i: usize)
        ensures
            i == self.place(),
            i < TARGET_COUNT,
    {
        match self {
            LoraTarget::Q => 0,
            LoraTarget::K => 1,
            LoraTarget::V => 2,
            LoraTarget::O => 3,
            LoraTarget::Mlp1 => 4,
            LoraTarget::Mlp2 => 5,
        }
    }

    /// Get (in_dim, out_dim) for this adapter target given a config.
    pub fn dims(&self, config: &Config) -> (d: (usize, usize))
        requires
            kv_dim(*config) <= usize::MAX,
        ensures
            d.0 == inputs_of(*config, *self),
            d.1 == outputs_of(*config, *self),
    {
        let kv_dim: usize = config.n_kv_head * config.head_dim;
        match self {
            LoraTarget::Q => (config.n_embd, config.n_embd),
            LoraTarget::K => (config.n_embd, kv_dim),
            LoraTarget::V => (config.n_embd, kv_dim),
            LoraTarget::O => (config.n_embd, config.n_embd),
            LoraTarget::Mlp1 => (config.n_embd, config.mlp_hidden),
            LoraTarget::Mlp2 => (config.mlp_hidden, config.n_embd),
        }
    }

    /// Short name used in buffer labels.
    pub fn name(&self) -> (s: &'static str)
        ensures
            s@ == (match *self {
                LoraTarget::Q => "q"@,
                LoraTarget::K => "k"@,
                LoraTarget::V => "v"@,
                LoraTarget::O => "o"@,
                LoraTarget::Mlp1 => "mlp1"@,
                LoraTarget::Mlp2 => "mlp2"@,
            }),
    {
        match self {
            LoraTarget::Q => "q",
            LoraTarget::K => "k",
            LoraTarget::V => "v",
            LoraTarget::O => "o",
            LoraTarget::Mlp1 => "mlp1",
            LoraTarget::Mlp2 => "mlp2",
        }
    }
}

/// Items per position in a key or value cache.
pub open spec fn kv_dim(c: Config) -> int {
    c.n_kv_head * c.head_dim
}

/// Inputs of the projection that an adapter belongs to.
pub open spec fn inputs_of(c: Config, target: LoraTarget) -> int {
    if target is Mlp2 {
        c.mlp_hidden as int
    } else {
        c.n_embd as int
    }
}

/// Outputs of the projection that an adapter belongs to.
pub open spec fn outputs_of(c: Config, target: LoraTarget) -> int {
    match target {
        LoraTarget::K => kv_dim(c),
        LoraTarget::V => kv_dim(c),
        LoraTarget::Mlp1 => c.mlp_hidden as int,
        _ => c.n_embd as int,
    }
}

/// The target at a place within a layer.
pub open spec fn target_at(i: int) -> LoraTarget {
    if i == 0 {
        LoraTarget::Q
    } else if i == 1 {
        LoraTarget::K
    } else if i == 2 {
        LoraTarget::V
    } else if i == 3 {
        LoraTarget::O
    } else if i == 4 {
        LoraTarget::Mlp1
    } else {
        LoraTarget::Mlp2
    }
}

/// The target at a place within a layer.
pub fn target_of(i: usize) -> (t: LoraTarget)
    ensures
        t == target_at(i as int),
{
    if i == 0 {
        LoraTarget::Q
    } else if i == 1 {
        LoraTarget::K
    } else if i == 2 {
        LoraTarget::V
    } else if i == 3 {
        LoraTarget::O
    } else if i == 4 {
        LoraTarget::Mlp1
    } else {
        LoraTarget::Mlp2
    }
}

/// Single LoRA adapter: Y = Wx + alpha * BAx.
#[derive(Debug)]
pub struct GpuLoraAdapter {
    /// `[rank, in_dim]`
    pub a: Vec<u32>,
    /// `[out_dim, rank]`
    pub b: Vec<u32>,
    pub in_dim: usize,
    pub out_dim: usize,
    pub rank: usize,
}

/// An adapter's shape and parameters.
#[verifier::ext_equal]
pub struct AdapterView {
    pub in_dim: nat,
    pub out_dim: nat,
    pub rank: nat,
    pub a: Seq<u32>,
    pub b: Seq<u32>,
}

impl View for GpuLoraAdapter {
    type V = AdapterView;

    open spec fn view(&self) -> AdapterView {
        AdapterView {
            in_dim: self.in_dim as nat,
            out_dim: self.out_dim as nat,
            rank: self.rank as nat,
            a: self.a@,
            b: self.b@,
        }
    }
}

impl AdapterView {
    /// The parameters fill the matrices of the stated shape.
    pub open spec fn shaped(self) -> bool {
        self.a.len() == self.rank * self.in_dim && self.b.len() == self.out_dim * self.rank
    }

    /// Total trainable parameter count (A + B).
    pub open spec fn params(self) -> nat {
        self.rank * self.in_dim + self.out_dim * self.rank
    }
}

/// An adapter before training: what it adds to its projection is zero.
pub open spec fn fresh_adapter(
    rank: nat,
    in_dim: nat,
    out_dim: nat,
    a: Seq<u32>,
) -> AdapterView {
    AdapterView { in_dim, out_dim, rank, a, b: Seq::new(out_dim * rank, |j: int| 0u32) }
}

impl GpuLoraAdapter {
    /// Create a new LoRA adapter from the values of A, with zeros for B.
    pub fn new(rank: usize, in_dim: usize, out_dim: usize, a: Vec<u32>) -> (r: GpuLoraAdapter)
        requires
            a@.len() == rank * in_dim,
            out_dim * rank <= usize::MAX,
        ensures
            r@ == fresh_adapter(rank as nat, in_dim as nat, out_dim as nat, a@),
            r@.shaped(),
    {
        let count: usize = out_dim * rank;
        let mut b: Vec<u32> = Vec::new();
        let mut i: usize = 0;
        while i < count
            invariant
                i <= count,
                b@ =~= Seq::new(i as nat, |j: int| 0u32),
            decreases count - i,
        {
            b.push(0);
            i = i + 1;
        }
        GpuLoraAdapter { a, b, in_dim, out_dim, rank }
    }

    /// Total trainable parameter count (A + B).
    pub fn param_count(&self) -> (n: usize)
        requires
            self@.params() <= usize::MAX,
        ensures
            n == self@.params(),
    {
        assert(self.rank * self.in_dim >= 0 && self.out_dim * self.rank >= 0) by (nonlinear_arith)
            requires
                self.rank >= 0,
                self.in_dim >= 0,
                self.out_dim >= 0,
        ;
        self.rank * self.in_dim + self.out_dim * self.rank
    }
}

/// All LoRA adapters for the model. 6 adapters per layer.
#[derive(Debug)]
pub struct GpuLoraBuffers {
    pub adapters: Vec<GpuLoraAdapter>,
    pub rank: usize,
    /// Bit pattern of the scale.
    pub alpha: u32,
}

/// The adapters of a model.
#[verifier::ext_equal]
pub struct LoraView {
    pub adapters: Seq<AdapterView>,
    pub rank: nat,
    pub alpha: u32,
}

impl View for GpuLoraBuffers {
    type V = LoraView;

    open spec fn view(&self) -> LoraView {
        LoraView {
            adapters: self.adapters@.map_values(|a: GpuLoraAdapter| a@),
            rank: self.rank as nat,
            alpha: self.alpha,
        }
    }
}

fn copied(v: &Vec<u32>) -> (r: Vec<u32>)
    ensures
        r@ == v@,
{
    let mut r: Vec<u32> = Vec::new();
    let mut i: usize = 0;
    while i < v.len()
        invariant
            i <= v@.len(),
            r@ =~= v@.take(i as int),
        decreases v@.len() - i,
    {
        r.push(v[i]);
        i = i + 1;
    }
    r
}

/// The parameters of the first `n` adapters together.
pub open spec fn total_params(adapters: Seq<AdapterView>, n: nat) -> nat
    decreases n,
{
    if n == 0 {
        0
    } else {
        total_params(adapters, (n - 1) as nat) + adapters[n - 1].params()
    }
}

/// The adapters of all layers before training.
pub open spec fn fresh_adapters(c: Config, rank: nat, a: Seq<Vec<u32>>) -> Seq<AdapterView> {
    Seq::new(
        (TARGET_COUNT * c.n_layer) as nat,
        |i: int|
            fresh_adapter(
                rank,
                inputs_of(c, target_at(i % 6)) as nat,
                outputs_of(c, target_at(i % 6)) as nat,
                a[i]@,
            ),
    )
}

impl GpuLoraBuffers {
    /// Create LoRA adapters for all layers, given the values of each A in order.
    pub fn new(config: &Config, rank: usize, alpha: u32, a: &Vec<Vec<u32>>) -> (l: GpuLoraBuffers)
        requires
            kv_dim(*config) <= usize::MAX,
            a@.len() == TARGET_COUNT * config.n_layer,
            forall|i: int|
                0 <= i < a@.len() ==> {
                    &&& (#[trigger] a@[i])@.len() == rank * inputs_of(*config, target_at(i % 6))
                    &&& outputs_of(*config, target_at(i % 6)) * rank <= usize::MAX
                },
        ensures
            l@.adapters == fresh_adapters(*config, rank as nat, a@),
            l@.rank == rank,
            l@.alpha == alpha,
    {
        let count: usize = a.len();
        let mut adapters: Vec<GpuLoraAdapter> = Vec::new();
        let mut i: usize = 0;
        while i < count
            invariant
                i <= count == a@.len(),
                kv_dim(*config) <= usize::MAX,
                a@.len() == TARGET_COUNT * config.n_layer,
                forall|j: int|
                    0 <= j < a@.len() ==> {
                        &&& (#[trigger] a@[j])@.len() == rank * inputs_of(
                            *config,
                            target_at(j % 6),
                        )
                        &&& outputs_of(*config, target_at(j % 6)) * rank <= usize::MAX
                    },
                adapters@.len() == i,
                forall|j: int|
                    0 <= j < i ==> (#[trigger] adapters@[j])@ == fresh_adapters(
                        *config,
                        rank as nat,
                        a@,
                    )[j],
            decreases count - i,
        {
            let target = target_of(i % TARGET_COUNT);
            let (in_dim, out_dim) = target.dims(config);
            assert(a@[i as int]@.len() == rank * in_dim);
            adapters.push(GpuLoraAdapter::new(rank, in_dim, out_dim, copied(&a[i])));
            i = i + 1;
        }
        let l = GpuLoraBuffers { adapters, rank, alpha };
        assert(l@.adapters =~= fresh_adapters(*config, rank as nat, a@));
        l
    }

    /// Get mutable adapter for layer and target.
    pub fn get_adapter_mut(&mut self, layer_idx: usize, target: LoraTarget) -> (a:
        &mut GpuLoraAdapter)
        requires
            layer_idx * TARGET_COUNT + target.place() < old(self).adapters@.len(),
            layer_idx * TARGET_COUNT + TARGET_COUNT <= usize::MAX,
        ensures
            *a == old(self).adapters@[layer_idx * TARGET_COUNT + target.place()],
            final(self).adapters@ == old(self).adapters@.update(
                layer_idx * TARGET_COUNT + target.place(),
                *final(a),
            ),
            final(self).rank == old(self).rank,
            final(self).alpha == old(self).alpha,
    {
        let i: usize = Self::adapter_index(layer_idx, target);
        &mut self.adapters[i]
    }

    /// Get adapter index for layer and target.
    pub fn adapter_index(layer_idx: usize, target: LoraTarget) -> (i: usize)
        requires
            layer_idx * TARGET_COUNT + TARGET_COUNT <= usize::MAX,
        ensures
            i == layer_idx * TARGET_COUNT + target.place(),
    {
        layer_idx * TARGET_COUNT + target.index()
    }

    /// Get adapter for layer and target.
    pub fn get_adapter(&self, layer_idx: usize, target: LoraTarget) -> (a: &GpuLoraAdapter)
        requires
            layer_idx * TARGET_COUNT + target.place() < self.adapters@.len(),
            layer_idx * TARGET_COUNT + TARGET_COUNT <= usize::MAX,
        ensures
            *a == self.adapters@[layer_idx * TARGET_COUNT + target.place()],
    {
        &self.adapters[Self::adapter_index(layer_idx, target)]
    }

    /// Total parameter count across all adapters.
    pub fn total_param_count(&self) -> (n: usize)
        requires
            total_params(self@.adapters, self.adapters@.len()) <= usize::MAX,
        ensures
            n == total_params(self@.adapters, self.adapters@.len()),
    {
        let mut sum: usize = 0;
        let mut i: usize = 0;
        while i < self.adapters.len()
            invariant
                i <= self.adapters@.len(),
                total_params(self@.adapters, self.adapters@.len()) <= usize::MAX,
                sum == total_params(self@.adapters, i as nat),
            decreases self.adapters@.len() - i,
        {
            proof {
                lemma_total_params(self@.adapters, (i + 1) as nat, self.adapters@.len());
                assert(self@.adapters[i as int] == self.adapters@[i as int]@);
            }
            sum = sum + self.adapters[i].param_count();
            i = i + 1;
        }
        sum
    }
}

proof fn lemma_total_params(adapters: Seq<AdapterView>, m: nat, n: nat)
    requires
        m <= n,
    ensures
        total_params(adapters, m) <= total_params(adapters, n),
    decreases n,
{
    if m < n {
        lemma_total_params(adapters, m, (n - 1) as nat);
    }
}

/// Adapters of different layers or targets have different indices.
pub proof fn law_adapter_indices_are_distinct(l1: nat, t1: LoraTarget, l2: nat, t2: LoraTarget)
    requires
        l1 * TARGET_COUNT + t1.place() == l2 * TARGET_COUNT + t2.place(),
    ensures
        l1 == l2,
        t1 == t2,
{
}

/// Why a file was not loaded.
#[derive(Clone, Copy, Debug, PartialEq, Eq, Structural)]
pub enum LoraError {
    TooSmall,
    BadMagic,
    UnsupportedVersion(u32),
    ChecksumMismatch,
    UnexpectedEnd,
    TruncatedAdapter(usize),
}

impl LoraError {
    /// What a message of this error says.
    pub open spec fn text(self) -> Seq<char> {
        match self {
            LoraError::TooSmall => "File too small for lora header"@,
            LoraError::BadMagic => "Invalid lora magic bytes"@,
            LoraError::UnsupportedVersion(v) => "Unsupported lora version: "@ + text::decimal(
                v as nat,
            ),
            LoraError::ChecksumMismatch => "LoRA file checksum mismatch"@,
            LoraError::UnexpectedEnd => "Unexpected end of data"@,
            LoraError::TruncatedAdapter(i) => "Truncated data for adapter "@ + text::decimal(
                i as nat,
            ),
        }
    }

    /// The message of this error.
    pub fn message(&self) -> (s: String)
        ensures
            s@ == self.text(),
    {
        let mut s = String::new();
        match *self {
            LoraError::TooSmall => push_text(&mut s, "File too small for lora header"),
            LoraError::BadMagic => push_text(&mut s, "Invalid lora magic bytes"),
            LoraError::UnsupportedVersion(v) => {
                push_text(&mut s, "Unsupported lora version: ");
                push_decimal(&mut s, v as u64);
            },
            LoraError::ChecksumMismatch => push_text(&mut s, "LoRA file checksum mismatch"),
            LoraError::UnexpectedEnd => push_text(&mut s, "Unexpected end of data"),
            LoraError::TruncatedAdapter(i) => {
                push_text(&mut s, "Truncated data for adapter ");
                push_decimal(&mut s, i as u64);
            },
        }
        assert(s@ =~= self.text());
        s
    }
}

/// A word as four bytes, the lowest first.
pub open spec fn word_bytes(w: u32) -> Seq<u8> {
    seq![
        (w % 256) as u8,
        (w / 256 % 256) as u8,
        (w / 65536 % 256) as u8,
        (w / 16777216) as u8,
    ]
}

/// The word at a byte offset.
pub open spec fn word_at(p: Seq<u8>, off: int) -> u32 {
    (p[off] + 256 * p[off + 1] + 65536 * p[off + 2] + 16777216 * p[off + 3]) as u32
}

/// A list of words as bytes.
pub open spec fn words_bytes(ws: Seq<u32>) -> Seq<u8> {
    Seq::new(4 * ws.len(), |k: int| word_bytes(ws[k / 4])[k % 4])
}

/// `n` words from a byte offset on.
pub open spec fn words_at(p: Seq<u8>, off: int, n: nat) -> Seq<u32> {
    Seq::new(n, |i: int| word_at(p, off + 4 * i))
}

/// One adapter in the payload.
pub open spec fn adapter_bytes(a: AdapterView) -> Seq<u8> {
    word_bytes(a.in_dim as u32) + word_bytes(a.out_dim as u32) + words_bytes(a.a) + words_bytes(a.b)
}

/// The adapters from place `i` on in the payload.
pub open spec fn adapters_bytes(adapters: Seq<AdapterView>, i: nat) -> Seq<u8>
    decreases adapters.len() - i,
{
    if i >= adapters.len() {
        seq![]
    } else {
        adapter_bytes(adapters[i as int]) + adapters_bytes(adapters, i + 1)
    }
}

/// The payload of a file.
pub open spec fn payload_bytes(l: LoraView) -> Seq<u8> {
    word_bytes(l.adapters.len() as u32) + word_bytes(l.rank as u32) + word_bytes(l.alpha)
        + adapters_bytes(l.adapters, 0)
}

/// A whole file with the checksum of its payload.
pub open spec fn file_bytes(payload: Seq<u8>, checksum: Seq<u8>) -> Seq<u8> {
    seq![76u8, 79u8, 82u8, 65u8] + word_bytes(LORA_VERSION) + checksum + payload
}

/// The adapters that a payload holds from place `i` at offset `off` on.
pub open spec fn parse_adapters(p: Seq<u8>, off: int, rank: nat, i: nat, n: nat) -> Result<
    Seq<AdapterView>,
    LoraError,
>
    decreases n - i,
{
    if i >= n {
        Ok(seq![])
    } else if off + 8 > p.len() {
        Err(LoraError::UnexpectedEnd)
    } else {
        let in_dim = word_at(p, off) as nat;
        let out_dim = word_at(p, off + 4) as nat;
        let a_len = rank * in_dim;
        let b_len = out_dim * rank;
        let next = off + 8 + 4 * a_len + 4 * b_len;
        if next > p.len() {
            Err(LoraError::TruncatedAdapter(i as usize))
        } else {
            match parse_adapters(p, next, rank, i + 1, n) {
                Ok(rest) => Ok(
                    seq![
                        AdapterView {
                            in_dim,
                            out_dim,
                            rank,
                            a: words_at(p, off + 8, a_len),
                            b: words_at(p, off + 8 + 4 * a_len, b_len),
                        },
                    ] + rest,
                ),
                Err(e) => Err(e),
            }
        }
    }
}

/// True for the bit patterns of the two zeros.
pub open spec fn is_zero(bits: u32) -> bool {
    bits == 0 || bits == 0x8000_0000
}

/// What a file holds, given the checksum computed over its payload. A scale other than zero
/// overrides the one in the file.
pub open spec fn parse_file(file: Seq<u8>, computed: Seq<u8>, alpha: u32) -> Result<
    LoraView,
    LoraError,
> {
    if file.len() < HEADER_LEN + 4 {
        Err(LoraError::TooSmall)
    } else if file.subrange(0, 4) != seq![76u8, 79u8, 82u8, 65u8] {
        Err(LoraError::BadMagic)
    } else if word_at(file, 4) != LORA_VERSION {
        Err(LoraError::UnsupportedVersion(word_at(file, 4)))
    } else if file.subrange(8, 40) != computed {
        Err(LoraError::ChecksumMismatch)
    } else {
        let p = file.subrange(HEADER_LEN as int, file.len() as int);
        if p.len() < 12 {
            Err(LoraError::UnexpectedEnd)
        } else {
            let n = word_at(p, 0) as nat;
            let rank = word_at(p, 4) as nat;
            match parse_adapters(p, 12, rank, 0, n) {
                Ok(adapters) => Ok(
                    LoraView {
                        adapters,
                        rank,
                        alpha: if is_zero(alpha) {
                            word_at(p, 8)
                        } else {
                            alpha
                        },
                    },
                ),
                Err(e) => Err(e),
            }
        }
    }
}

/// The BLAKE3 digest of a byte string.
pub uninterp spec fn blake3_digest(data: Seq<u8>) -> Seq<u8>;

/// Calls `blake3::hash`.
///
/// The digest is a function of the bytes and is always 32 bytes long. Nothing is claimed about
/// collisions.
#[verifier::external_body]
fn blake3_hash(data: &[u8]) -> (digest: Vec<u8>)
    ensures
        digest@ == blake3_digest(data@),
        digest@.len() == 32,
{
    blake3::hash(data).as_bytes().to_vec()
}

fn push_word(buf: &mut Vec<u8>, w: u32)
    ensures
        final(buf)@ == old(buf)@ + word_bytes(w),
{
    buf.push((w % 256) as u8);
    buf.push((w / 256 % 256) as u8);
    buf.push((w / 65536 % 256) as u8);
    buf.push((w / 16777216) as u8);
    assert(buf@ =~= old(buf)@ + word_bytes(w));
}

fn push_words(buf: &mut Vec<u8>, ws: &Vec<u32>)
    ensures
        final(buf)@ == old(buf)@ + words_bytes(ws@),
{
    let mut i: usize = 0;
    assert(buf@ =~= old(buf)@ + words_bytes(ws@.take(0)));
    while i < ws.len()
        invariant
            i <= ws@.len(),
            buf@ == old(buf)@ + words_bytes(ws@.take(i as int)),
        decreases ws@.len() - i,
    {
        push_word(buf, ws[i]);
        proof {
            let t = ws@.take(i as int);
            let u = ws@.take(i + 1);
            assert(words_bytes(u) =~= words_bytes(t) + word_bytes(ws@[i as int])) by {
                assert forall|k: int| 0 <= k < 4 * u.len() implies words_bytes(u)[k] == (words_bytes(
                    t,
                ) + word_bytes(ws@[i as int]))[k] by {
                    if k < 4 * t.len() {
                        assert(k / 4 < t.len());
                        assert(u[k / 4] == t[k / 4]);
                    } else {
                        assert(k / 4 == t.len() && k % 4 == k - 4 * t.len());
                    }
                }
            }
            assert(buf@ =~= old(buf)@ + words_bytes(u));
        }
        i = i + 1;
    }
    assert(ws@.take(ws@.len() as int) =~= ws@);
}

/// Puts a file together from a payload and its checksum.
pub fn assemble_lora(payload: &Vec<u8>, checksum: &Vec<u8>) -> (file: Vec<u8>)
    ensures
        file@ == file_bytes(payload@, checksum@),
{
    let mut file: Vec<u8> = Vec::new();
    file.push(76);
    file.push(79);
    file.push(82);
    file.push(65);
    push_word(&mut file, LORA_VERSION);
    push_bytes(&mut file, checksum);
    push_bytes(&mut file, payload);
    assert(file@ =~= file_bytes(payload@, checksum@));
    file
}

fn push_bytes(buf: &mut Vec<u8>, bytes: &Vec<u8>)
    ensures
        final(buf)@ == old(buf)@ + bytes@,
{
    let mut i: usize = 0;
    while i < bytes.len()
        invariant
            i <= bytes@.len(),
            buf@ =~= old(buf)@ + bytes@.take(i as int),
        decreases bytes@.len() - i,
    {
        buf.push(bytes[i]);
        i = i + 1;
    }
    assert(bytes@.take(bytes@.len() as int) =~= bytes@);
}

/// The payload of a file.
pub fn encode_payload(lora: &GpuLoraBuffers) -> (payload: Vec<u8>)
    ensures
        payload@ == payload_bytes(lora@),
{
    let mut buf: Vec<u8> = Vec::new();
    push_word(&mut buf, lora.adapters.len() as u32);
    push_word(&mut buf, lora.rank as u32);
    push_word(&mut buf, lora.alpha);
    let ghost all = lora@.adapters;
    let mut i: usize = 0;
    assert(buf@ + adapters_bytes(all, 0) =~= payload_bytes(lora@));
    while i < lora.adapters.len()
        invariant
            i <= lora.adapters@.len(),
            all == lora@.adapters,
            buf@ + adapters_bytes(all, i as nat) == payload_bytes(lora@),
        decreases lora.adapters@.len() - i,
    {
        let ghost before = buf@;
        let adapter = &lora.adapters[i];
        push_word(&mut buf, adapter.in_dim as u32);
        push_word(&mut buf, adapter.out_dim as u32);
        push_words(&mut buf, &adapter.a);
        push_words(&mut buf, &adapter.b);
        proof {
            assert(all[i as int] == adapter@);
            assert(buf@ =~= before + adapter_bytes(all[i as int]));
            assert(buf@ + adapters_bytes(all, (i + 1) as nat) =~= before + adapters_bytes(
                all,
                i as nat,
            ));
        }
        i = i + 1;
    }
    assert(buf@ + adapters_bytes(all, i as nat) =~= buf@);
    buf
}

/// Export LoRA adapters to bytes with blake3 checksum.
///
/// Loading the bytes gives the adapters back.
pub fn export_lora(lora: &GpuLoraBuffers) -> (file: Vec<u8>)
    ensures
        file@ == file_bytes(payload_bytes(lora@), blake3_digest(payload_bytes(lora@))),
        exportable(lora@) ==> file@.len() >= HEADER_LEN + 4 && parse_file(
            file@,
            blake3_digest(file@.subrange(HEADER_LEN as int, file@.len() as int)),
            0,
        ) == Ok::<LoraView, LoraError>(lora@),
{
    let payload = encode_payload(lora);
    let checksum = blake3_hash(payload.as_slice());
    proof {
        if exportable(lora@) {
            law_export_then_load(lora@, checksum@, 0);
        }
    }
    assemble_lora(&payload, &checksum)
}

/// Reads the word at `offset` and moves past it.
pub fn read_u32_le(data: &[u8], offset: &mut usize) -> (r: Result<u32, LoraError>)
    ensures
        *old(offset) + 4 <= data@.len() ==> r == Ok::<u32, LoraError>(
            word_at(data@, *old(offset) as int),
        ) && *final(offset) == *old(offset) + 4,
        *old(offset) + 4 > data@.len() ==> r == Err::<u32, LoraError>(LoraError::UnexpectedEnd)
            && *final(offset) == *old(offset),
{
    let off: usize = *offset;
    let len: usize = data.len();
    if len < 4 || off > len - 4 {
        return Err(LoraError::UnexpectedEnd);
    }
    let w: u32 = data[off] as u32 + 256 * data[off + 1] as u32 + 65536 * data[off + 2] as u32
        + 16777216 * data[off + 3] as u32;
    *offset = off + 4;
    Ok(w)
}

fn read_words(data: &[u8], offset: usize, n: usize) -> (ws: Vec<u32>)
    requires
        offset + 4 * n <= data@.len(),
    ensures
        ws@ == words_at(data@, offset as int, n as nat),
{
    let mut ws: Vec<u32> = Vec::new();
    let mut i: usize = 0;
    let total: usize = data.len();
    while i < n
        invariant
            i <= n,
            total == data@.len(),
            offset + 4 * n <= total,
            ws@ =~= words_at(data@, offset as int, n as nat).take(i as int),
        decreases n - i,
    {
        let off: usize = offset + 4 * i;
        let w: u32 = data[off] as u32 + 256 * data[off + 1] as u32 + 65536 * data[off + 2] as u32
            + 16777216 * data[off + 3] as u32;
        ws.push(w);
        i = i + 1;
    }
    assert(ws@ =~= words_at(data@, offset as int, n as nat));
    ws
}

/// The exec result matches the view of the parsed file.
pub open spec fn loads_as(r: Result<GpuLoraBuffers, LoraError>, v: Result<LoraView, LoraError>) -> bool {
    match (r, v) {
        (Ok(l), Ok(w)) => l@ == w,
        (Err(e), Err(f)) => e == f,
        _ => false,
    }
}


/// Prepends what was parsed already.
spec fn after_done(
    done: Seq<AdapterView>,
    rest: Result<Seq<AdapterView>, LoraError>,
) -> Result<Seq<AdapterView>, LoraError> {
    match rest {
        Ok(r) => Ok(done + r),
        Err(e) => Err(e),
    }
}

fn parse_adapter_list(payload: &[u8], rank: u32, n: u32) -> (r: Result<Vec<GpuLoraAdapter>, LoraError>)
    requires
        payload@.len() >= 12,
    ensures
        match (r, parse_adapters(payload@, 12, rank as nat, 0, n as nat)) {
            (Ok(v), Ok(w)) => v@.map_values(|a: GpuLoraAdapter| a@) == w,
            (Err(e), Err(f)) => e == f,
            _ => false,
        },
{
    let mut adapters: Vec<GpuLoraAdapter> = Vec::new();
    let mut offset: usize = 12;
    let mut i: u32 = 0;
    let total: usize = payload.len();
    let ghost whole = parse_adapters(payload@, 12, rank as nat, 0, n as nat);
    let ghost mut done: Seq<AdapterView> = seq![];
    assert(whole == after_done(done, parse_adapters(payload@, 12, rank as nat, 0, n as nat))) by {
        match whole {
            Ok(w) => {
                assert(done + w =~= w);
            },
            Err(e) => {},
        }
    }
    while i < n
        invariant
            i <= n,
            total == payload@.len(),
            offset <= total,
            whole == after_done(
                done,
                parse_adapters(payload@, offset as int, rank as nat, i as nat, n as nat),
            ),
            done =~= adapters@.map_values(|a: GpuLoraAdapter| a@),
            whole == parse_adapters(payload@, 12, rank as nat, 0, n as nat),
        decreases n - i,
    {
        let in_dim: u32 = match read_u32_le(payload, &mut offset) {
            Ok(w) => w,
            Err(e) => {
                return Err(e);
            },
        };
        let out_dim: u32 = match read_u32_le(payload, &mut offset) {
            Ok(w) => w,
            Err(e) => {
                return Err(e);
            },
        };
        proof {
            assert(0 <= rank * in_dim <= 0xFFFF_FFFF * 0xFFFF_FFFF) by (nonlinear_arith)
                requires
                    0 <= rank <= 0xFFFF_FFFF,
                    0 <= in_dim <= 0xFFFF_FFFF,
            ;
            assert(0 <= out_dim * rank <= 0xFFFF_FFFF * 0xFFFF_FFFF) by (nonlinear_arith)
                requires
                    0 <= rank <= 0xFFFF_FFFF,
                    0 <= out_dim <= 0xFFFF_FFFF,
            ;
        }
        let a_len: u128 = rank as u128 * in_dim as u128;
        let b_len: u128 = out_dim as u128 * rank as u128;
        let end: u128 = offset as u128 + 4 * a_len + 4 * b_len;
        if end > total as u128 {
            return Err(LoraError::TruncatedAdapter(i as usize));
        }
        let a = read_words(payload, offset, a_len as usize);
        let b = read_words(payload, offset + 4 * a_len as usize, b_len as usize);
        let adapter = GpuLoraAdapter {
            a,
            b,
            in_dim: in_dim as usize,
            out_dim: out_dim as usize,
            rank: rank as usize,
        };
        proof {
            let rest = parse_adapters(payload@, end as int, rank as nat, (i + 1) as nat, n as nat);
            let old_done = done;
            done = done.push(adapter@);
            match rest {
                Ok(r) => {
                    assert(old_done + (seq![adapter@] + r) =~= done + r);
                },
                Err(e) => {},
            }
        }
        adapters.push(adapter);
        offset = end as usize;
        i = i + 1;
    }
    assert(done + Seq::<AdapterView>::empty() =~= done);
    Ok(adapters)
}

/// Reads a file, given the checksum computed over its payload.
pub fn parse_lora(file: &[u8], computed: &Vec<u8>, alpha: u32) -> (r: Result<
    GpuLoraBuffers,
    LoraError,
>)
    ensures
        loads_as(r, parse_file(file@, computed@, alpha)),
{
    if file.len() < HEADER_LEN + 4 {
        return Err(LoraError::TooSmall);
    }
    let magic: bool = file[0] == 76 && file[1] == 79 && file[2] == 82 && file[3] == 65;
    proof {
        let head = file@.subrange(0, 4);
        assert(head.len() == 4);
        if magic {
            assert(head =~= seq![76u8, 79u8, 82u8, 65u8]);
        } else {
            let m = seq![76u8, 79u8, 82u8, 65u8];
            assert(head[0] == file@[0] && head[1] == file@[1] && head[2] == file@[2] && head[3]
                == file@[3]);
            assert(m[0] == 76 && m[1] == 79 && m[2] == 82 && m[3] == 65);
        }
    }
    if !magic {
        return Err(LoraError::BadMagic);
    }
    let mut at: usize = 4;
    let version: u32 = match read_u32_le(file, &mut at) {
        Ok(w) => w,
        Err(e) => {
            return Err(e);
        },
    };
    if version != LORA_VERSION {
        return Err(LoraError::UnsupportedVersion(version));
    }
    if !same_bytes(slice_subrange(file, 8, 40), computed) {
        return Err(LoraError::ChecksumMismatch);
    }
    let payload = slice_subrange(file, HEADER_LEN, file.len());
    let mut offset: usize = 0;
    let n: u32 = match read_u32_le(payload, &mut offset) {
        Ok(w) => w,
        Err(e) => {
            return Err(e);
        },
    };
    let rank: u32 = match read_u32_le(payload, &mut offset) {
        Ok(w) => w,
        Err(e) => {
            return Err(e);
        },
    };
    let file_alpha: u32 = match read_u32_le(payload, &mut offset) {
        Ok(w) => w,
        Err(e) => {
            return Err(e);
        },
    };
    match parse_adapter_list(payload, rank, n) {
        Ok(adapters) => {
            let l = GpuLoraBuffers {
                adapters,
                rank: rank as usize,
                alpha: if alpha == 0 || alpha == 0x8000_0000 {
                    file_alpha
                } else {
                    alpha
                },
            };
            assert(l@ =~= parse_file(file@, computed@, alpha)->Ok_0);
            Ok(l)
        },
        Err(e) => Err(e),
    }
}

fn same_bytes(x: &[u8], y: &Vec<u8>) -> (b: bool)
    ensures
        b == (x@ == y@),
{
    if x.len() != y.len() {
        return false;
    }
    let mut i: usize = 0;
    while i < y.len()
        invariant
            i <= y@.len() == x@.len(),
            forall|j: int| 0 <= j < i ==> x@[j] == y@[j],
        decreases y@.len() - i,
    {
        if x[i] != y[i] {
            return false;
        }
        i = i + 1;
    }
    assert(x@ =~= y@);
    true
}

/// Load LoRA adapters from bytes.
///
/// A scale other than zero overrides the one in the file.
pub fn load_lora(file: &[u8], alpha: u32) -> (r: Result<GpuLoraBuffers, LoraError>)
    ensures
        file@.len() < HEADER_LEN + 4 ==> r == Err::<GpuLoraBuffers, LoraError>(LoraError::TooSmall),
        file@.len() >= HEADER_LEN + 4 ==> loads_as(
            r,
            parse_file(
                file@,
                blake3_digest(file@.subrange(HEADER_LEN as int, file@.len() as int)),
                alpha,
            ),
        ),
{
    if file.len() < HEADER_LEN + 4 {
        return Err(LoraError::TooSmall);
    }
    let computed = blake3_hash(slice_subrange(file, HEADER_LEN, file.len()));
    parse_lora(file, &computed, alpha)
}

/// A model that the file format can hold: counts fit in a word, every adapter has the model's
/// rank and the parameters of its shape.
pub open spec fn exportable(l: LoraView) -> bool {
    &&& l.adapters.len() <= u32::MAX
    &&& l.rank <= u32::MAX
    &&& forall|i: int|
        0 <= i < l.adapters.len() ==> {
            let a = #[trigger] l.adapters[i];
            a.shaped() && a.rank == l.rank && a.in_dim <= u32::MAX && a.out_dim <= u32::MAX
        }
}

proof fn lemma_word_round_trip(p: Seq<u8>, off: int, w: u32)
    requires
        0 <= off,
        off + 4 <= p.len(),
        p.subrange(off, off + 4) == word_bytes(w),
    ensures
        word_at(p, off) == w,
{
    let s = p.subrange(off, off + 4);
    assert(s[0] == p[off] && s[1] == p[off + 1] && s[2] == p[off + 2] && s[3] == p[off + 3]);
    let b = word_bytes(w);
    assert(b[0] == w % 256 && b[1] == w / 256 % 256 && b[2] == w / 65536 % 256 && b[3] == w
        / 16777216);
    assert(w == w % 256 + 256 * (w / 256 % 256) + 65536 * (w / 65536 % 256) + 16777216 * (w
        / 16777216));
}

proof fn lemma_words_round_trip(p: Seq<u8>, off: int, ws: Seq<u32>)
    requires
        0 <= off,
        off + 4 * ws.len() <= p.len(),
        p.subrange(off, off + 4 * ws.len()) == words_bytes(ws),
    ensures
        words_at(p, off, ws.len()) == ws,
{
    let s = p.subrange(off, off + 4 * ws.len());
    assert forall|i: int| 0 <= i < ws.len() implies words_at(p, off, ws.len())[i] == ws[i] by {
        let sub = p.subrange(off + 4 * i, off + 4 * i + 4);
        assert forall|j: int| 0 <= j < 4 implies sub[j] == word_bytes(ws[i])[j] by {
            assert(sub[j] == s[4 * i + j]);
            assert((4 * i + j) / 4 == i && (4 * i + j) % 4 == j);
        }
        assert(sub =~= word_bytes(ws[i]));
        lemma_word_round_trip(p, off + 4 * i, ws[i]);
    }
    assert(words_at(p, off, ws.len()) =~= ws);
}

/// A part of the rest of a payload is found at its offset.
proof fn lemma_part(p: Seq<u8>, off: int, tail: Seq<u8>, at: int, part: Seq<u8>, rest: Seq<u8>)
    requires
        0 <= off <= p.len(),
        0 <= at,
        tail == p.subrange(off, p.len() as int),
        at + part.len() <= tail.len(),
        tail.subrange(at, tail.len() as int) == part + rest,
    ensures
        p.subrange(off + at, off + at + part.len()) == part,
{
    let q = tail.subrange(at, tail.len() as int);
    let s = p.subrange(off + at, off + at + part.len());
    assert forall|j: int| 0 <= j < part.len() implies s[j] == part[j] by {
        assert(s[j] == q[j]);
    }
    assert(s =~= part);
}

proof fn lemma_adapters_round_trip(p: Seq<u8>, off: int, l: LoraView, i: nat)
    requires
        exportable(l),
        i <= l.adapters.len(),
        0 <= off <= p.len(),
        p.subrange(off, p.len() as int) == adapters_bytes(l.adapters, i),
    ensures
        parse_adapters(p, off, l.rank, i, l.adapters.len()) == Ok::<Seq<AdapterView>, LoraError>(
            l.adapters.subrange(i as int, l.adapters.len() as int),
        ),
    decreases l.adapters.len() - i,
{
    let all = l.adapters;
    if i < all.len() {
        let a = all[i as int];
        let tail = p.subrange(off, p.len() as int);
        let mine = adapter_bytes(a);
        let a_len = a.a.len() as int;
        let b_len = a.b.len() as int;
        let next = off + 8 + 4 * a_len + 4 * b_len;
        assert(mine.len() == 8 + 4 * a_len + 4 * b_len);
        assert(tail == mine + adapters_bytes(all, i + 1));
        let w1 = word_bytes(a.in_dim as u32);
        let w2 = word_bytes(a.out_dim as u32);
        let w3 = words_bytes(a.a);
        let w4 = words_bytes(a.b);
        let w5 = adapters_bytes(all, i + 1);
        assert(tail.subrange(0, tail.len() as int) =~= w1 + (w2 + w3 + w4 + w5));
        lemma_part(p, off, tail, 0, w1, w2 + w3 + w4 + w5);
        lemma_word_round_trip(p, off, a.in_dim as u32);
        assert(tail.subrange(4, tail.len() as int) =~= w2 + (w3 + w4 + w5));
        lemma_part(p, off, tail, 4, w2, w3 + w4 + w5);
        lemma_word_round_trip(p, off + 4, a.out_dim as u32);
        assert(tail.subrange(8, tail.len() as int) =~= w3 + (w4 + w5));
        lemma_part(p, off, tail, 8, w3, w4 + w5);
        lemma_words_round_trip(p, off + 8, a.a);
        assert(tail.subrange(8 + 4 * a_len, tail.len() as int) =~= w4 + w5);
        lemma_part(p, off, tail, 8 + 4 * a_len, w4, w5);
        lemma_words_round_trip(p, off + 8 + 4 * a_len, a.b);
        assert(p.subrange(next, p.len() as int) =~= tail.subrange(
            next - off,
            tail.len() as int,
        ));
        assert(tail.subrange(next - off, tail.len() as int) =~= w5);
        lemma_adapters_round_trip(p, next, l, i + 1);
        assert(seq![a] + all.subrange((i + 1) as int, all.len() as int) =~= all.subrange(
            i as int,
            all.len() as int,
        ));
    } else {
        assert(all.subrange(i as int, all.len() as int) =~= seq![]);
    }
}

proof fn lemma_header_reads_back(payload: Seq<u8>, digest: Seq<u8>)
    requires
        digest.len() == 32,
    ensures
        ({
            let file = file_bytes(payload, digest);
            &&& file.len() == HEADER_LEN + payload.len()
            &&& file.subrange(0, 4) == seq![76u8, 79u8, 82u8, 65u8]
            &&& word_at(file, 4) == LORA_VERSION
            &&& file.subrange(8, 40) == digest
            &&& file.subrange(HEADER_LEN as int, file.len() as int) == payload
        }),
{
    let file = file_bytes(payload, digest);
    assert(file.subrange(0, 4) =~= seq![76u8, 79u8, 82u8, 65u8]);
    assert(file.subrange(4, 8) =~= word_bytes(LORA_VERSION));
    lemma_word_round_trip(file, 4, LORA_VERSION);
    assert(file.subrange(8, 40) =~= digest);
    assert(file.subrange(HEADER_LEN as int, file.len() as int) =~= payload);
}

proof fn lemma_payload_head_reads_back(l: LoraView)
    ensures
        ({
            let p = payload_bytes(l);
            &&& p.len() >= 12
            &&& word_at(p, 0) == l.adapters.len() as u32
            &&& word_at(p, 4) == l.rank as u32
            &&& word_at(p, 8) == l.alpha
            &&& p.subrange(12, p.len() as int) == adapters_bytes(l.adapters, 0)
        }),
{
    let p = payload_bytes(l);
    assert(p.subrange(0, 4) =~= word_bytes(l.adapters.len() as u32));
    lemma_word_round_trip(p, 0, l.adapters.len() as u32);
    assert(p.subrange(4, 8) =~= word_bytes(l.rank as u32));
    lemma_word_round_trip(p, 4, l.rank as u32);
    assert(p.subrange(8, 12) =~= word_bytes(l.alpha));
    lemma_word_round_trip(p, 8, l.alpha);
    assert(p.subrange(12, p.len() as int) =~= adapters_bytes(l.adapters, 0));
}

/// Loading an exported file gives the adapters back, with the scale of the file or the one
/// that overrides it.
pub proof fn law_export_then_load(l: LoraView, digest: Seq<u8>, alpha: u32)
    requires
        exportable(l),
        digest.len() == 32,
    ensures
        ({
            let file = file_bytes(payload_bytes(l), digest);
            &&& file.len() >= HEADER_LEN + 4
            &&& file.subrange(HEADER_LEN as int, file.len() as int) == payload_bytes(l)
            &&& parse_file(file, digest, alpha) == Ok::<LoraView, LoraError>(
                LoraView {
                    adapters: l.adapters,
                    rank: l.rank,
                    alpha: if is_zero(alpha) {
                        l.alpha
                    } else {
                        alpha
                    },
                },
            )
        }),
{
    let payload = payload_bytes(l);
    lemma_header_reads_back(payload, digest);
    lemma_payload_head_reads_back(l);
    lemma_adapters_round_trip(payload, 12, l, 0);
    assert(l.adapters.subrange(0, l.adapters.len() as int) =~= l.adapters);
}

/// A file whose stored checksum differs from the one computed over its payload is refused.
pub proof fn law_changed_payload_is_refused(file: Seq<u8>, computed: Seq<u8>, alpha: u32)
    requires
        file.len() >= HEADER_LEN + 4,
        file.subrange(0, 4) == seq![76u8, 79u8, 82u8, 65u8],
        word_at(file, 4) == LORA_VERSION,
        file.subrange(8, 40) != computed,
    ensures
        parse_file(file, computed, alpha) == Err::<LoraView, LoraError>(LoraError::ChecksumMismatch),
{
}

/// Words are written lowest byte first, and read as they were written.
pub proof fn law_words_are_little_endian(w: u32, p: Seq<u8>, off: int)
    requires
        0 <= off,
        off + 4 <= p.len(),
    ensures
        word_bytes(w).len() == 4,
        word_bytes(w)[0] + 0x100 * word_bytes(w)[1] + 0x1_0000 * word_bytes(w)[2] + 0x100_0000
            * word_bytes(w)[3] == w,
        p.subrange(off, off + 4) == word_bytes(w) ==> word_at(p, off) == w,
        word_at(p, off) == p[off] + 0x100 * p[off + 1] + 0x1_0000 * p[off + 2] + 0x100_0000 * p[off
            + 3],
{
    let s = p.subrange(off, off + 4);
    assert(s[0] == p[off] && s[1] == p[off + 1] && s[2] == p[off + 2] && s[3] == p[off + 3]);
    assert(w / 256 % 256 + 256 * (w / 65536 % 256) + 65536 * (w / 16777216) == w / 256);
}

/// A file begins with its four letters and the format's number, then comes the checksum of 32
/// bytes, then the payload: how many adapters there are, their rank, their scale, the adapters.
pub proof fn law_file_layout(l: LoraView, checksum: Seq<u8>)
    requires
        checksum.len() == 32,
        exportable(l),
    ensures
        ({
            let file = file_bytes(payload_bytes(l), checksum);
            &&& file[0] == 'L' as u32
            &&& file[1] == 'O' as u32
            &&& file[2] == 'R' as u32
            &&& file[3] == 'A' as u32
            &&& word_at(file, 4) == 1
            &&& file.subrange(8, 40) == checksum
            &&& word_at(file, 40) == l.adapters.len()
            &&& word_at(file, 44) == l.rank
            &&& word_at(file, 48) == l.alpha
            &&& file.len() == 52 + adapters_bytes(l.adapters, 0).len()
        }),
{
    let file = file_bytes(payload_bytes(l), checksum);
    assert(file.subrange(8, 40) =~= checksum);
    assert(file.subrange(4, 8) =~= word_bytes(1));
    assert(file.subrange(40, 44) =~= word_bytes(l.adapters.len() as u32));
    assert(file.subrange(44, 48) =~= word_bytes(l.rank as u32));
    assert(file.subrange(48, 52) =~= word_bytes(l.alpha));
    law_words_are_little_endian(1, file, 4);
    law_words_are_little_endian(l.adapters.len() as u32, file, 40);
    law_words_are_little_endian(l.rank as u32, file, 44);
    law_words_are_little_endian(l.alpha, file, 48);
}

/// An adapter is written as its two sizes and its two matrices, A before B, each parameter as a
/// word.
pub proof fn law_adapter_layout(a: AdapterView, i: int)
    requires
        a.in_dim <= u32::MAX,
        a.out_dim <= u32::MAX,
    ensures
        adapter_bytes(a).len() == 8 + 4 * a.a.len() + 4 * a.b.len(),
        word_at(adapter_bytes(a), 0) == a.in_dim,
        word_at(adapter_bytes(a), 4) == a.out_dim,
        0 <= i < a.a.len() ==> word_at(adapter_bytes(a), 8 + 4 * i) == a.a[i],
        0 <= i < a.b.len() ==> word_at(adapter_bytes(a), 8 + 4 * a.a.len() + 4 * i) == a.b[i],
{
    let p = adapter_bytes(a);
    assert(p.subrange(0, 4) =~= word_bytes(a.in_dim as u32));
    assert(p.subrange(4, 8) =~= word_bytes(a.out_dim as u32));
    law_words_are_little_endian(a.in_dim as u32, p, 0);
    law_words_are_little_endian(a.out_dim as u32, p, 4);
    if 0 <= i < a.a.len() {
        let off = 8 + 4 * i;
        assert forall|k: int| 0 <= k < 4 implies #[trigger] p.subrange(off, off + 4)[k]
            == word_bytes(a.a[i])[k] by {
            assert((4 * i + k) / 4 == i && (4 * i + k) % 4 == k);
            assert(p[off + k] == words_bytes(a.a)[4 * i + k]);
        }
        assert(p.subrange(off, off + 4) =~= word_bytes(a.a[i]));
        law_words_are_little_endian(a.a[i], p, off);
    }
    if 0 <= i < a.b.len() {
        let off = 8 + 4 * a.a.len() + 4 * i;
        assert forall|k: int| 0 <= k < 4 implies #[trigger] p.subrange(off, off + 4)[k]
            == word_bytes(a.b[i])[k] by {
            assert((4 * i + k) / 4 == i && (4 * i + k) % 4 == k);
            assert(p[off + k] == words_bytes(a.b)[4 * i + k]);
        }
        assert(p.subrange(off, off + 4) =~= word_bytes(a.b[i]));
        law_words_are_little_endian(a.b[i], p, off);
    }
}

/// A file is refused for the first thing that is wrong with it: its length, its letters, its
/// format, its checksum.
pub proof fn law_broken_files_are_refused(file: Seq<u8>, computed: Seq<u8>, alpha: u32)
    ensures
        file.len() < 44 ==> parse_file(file, computed, alpha) == Err::<LoraView, LoraError>(
            LoraError::TooSmall,
        ),
        file.len() >= 44 && !(file[0] == 'L' as u32 && file[1] == 'O' as u32 && file[2] == 'R' as u32
            && file[3] == 'A' as u32) ==> parse_file(file, computed, alpha) == Err::<
            LoraView,
            LoraError,
        >(LoraError::BadMagic),
        file.len() >= 44 && file[0] == 'L' as u32 && file[1] == 'O' as u32 && file[2] == 'R' as u32
            && file[3] == 'A' as u32 && word_at(file, 4) != 1 ==> parse_file(file, computed, alpha)
            == Err::<LoraView, LoraError>(LoraError::UnsupportedVersion(word_at(file, 4))),
        parse_file(file, computed, alpha) is Ok ==> file.subrange(8, 40) == computed,
        parse_file(file, computed, alpha) matches Ok(l) ==> l.adapters.len() == word_at(file, 40)
            && l.rank == word_at(file, 44) && (!is_zero(alpha) ==> l.alpha == alpha) && (is_zero(
            alpha,
        ) ==> l.alpha == word_at(file, 48)),
{
    let m = seq![76u8, 79u8, 82u8, 65u8];
    if file.len() >= 44 {
        let h = file.subrange(0, 4);
        assert(h[0] == file[0] && h[1] == file[1] && h[2] == file[2] && h[3] == file[3]);
        assert(m[0] == 76 && m[1] == 79 && m[2] == 82 && m[3] == 65);
        if file[0] == 76 && file[1] == 79 && file[2] == 82 && file[3] == 65 {
            assert(h =~= m);
        }
        let p = file.subrange(40, file.len() as int);
        if p.len() >= 12 {
            assert(word_at(p, 0) == word_at(file, 40));
            assert(word_at(p, 4) == word_at(file, 44));
            assert(word_at(p, 8) == word_at(file, 48));
            lemma_parsed_len(p, 12, word_at(p, 4) as nat, 0, word_at(p, 0) as nat);
        }
    }
}

proof fn lemma_parsed_len(p: Seq<u8>, off: int, rank: nat, i: nat, n: nat)
    requires
        i <= n,
    ensures
        parse_adapters(p, off, rank, i, n) matches Ok(v) ==> v.len() == n - i,
    decreases n - i,
{
    if i < n && off + 8 <= p.len() {
        let in_dim = word_at(p, off) as nat;
        let out_dim = word_at(p, off + 4) as nat;
        lemma_parsed_len(p, off + 8 + 4 * (rank * in_dim) + 4 * (out_dim * rank), rank, i + 1, n);
    }
}

/// The shapes of the projections: all but the second MLP projection read an embedding, all but
/// keys, values and the first MLP projection give one, and what the first MLP projection gives the
/// second one reads.
pub proof fn law_projection_shapes(c: Config)
    ensures
        inputs_of(c, LoraTarget::Mlp2) == outputs_of(c, LoraTarget::Mlp1),
        outputs_of(c, LoraTarget::Mlp2) == inputs_of(c, LoraTarget::Mlp1),
        inputs_of(c, LoraTarget::Q) == c.n_embd && outputs_of(c, LoraTarget::Q) == c.n_embd,
        inputs_of(c, LoraTarget::O) == c.n_embd && outputs_of(c, LoraTarget::O) == c.n_embd,
        outputs_of(c, LoraTarget::K) == outputs_of(c, LoraTarget::V),
        inputs_of(c, LoraTarget::K) == c.n_embd && inputs_of(c, LoraTarget::V) == c.n_embd,
        outputs_of(c, LoraTarget::K) == c.head_dim * c.n_kv_head,
        inputs_of(c, LoraTarget::Mlp1) == c.n_embd,
        outputs_of(c, LoraTarget::Mlp1) == c.mlp_hidden,
{
    assert(c.head_dim * c.n_kv_head == c.n_kv_head * c.head_dim) by (nonlinear_arith);
}

/// A new adapter adds nothing to its projection: its B is all zeros, and it has the shape that its
/// target asks for.
pub proof fn law_fresh_adapters_add_nothing(
    c: Config,
    rank: nat,
    a: Seq<Vec<u32>>,
    layer: int,
    target: LoraTarget,
    j: int,
)
    requires
        0 <= layer < c.n_layer,
    ensures
        ({
            let fresh = fresh_adapters(c, rank, a)[6 * layer + target.place()];
            &&& fresh_adapters(c, rank, a).len() == 6 * c.n_layer
            &&& fresh.rank == rank
            &&& fresh.a == a[6 * layer + target.place()]@
            &&& 0 <= j < fresh.b.len() ==> fresh.b[j] == 0
            &&& kv_dim(c) >= 0 ==> fresh.in_dim == inputs_of(c, target) && fresh.out_dim
                == outputs_of(c, target) && fresh.b.len() == outputs_of(c, target) * rank
        }),
{
    let i = 6 * layer + target.place();
    assert(i % 6 == target.place());
    assert(target_at(target.place()) == target);
}

/// Parameters are counted adapter by adapter: the entries of A and those of B.
pub proof fn law_parameters_add_up(adapters: Seq<AdapterView>, n: nat)
    requires
        0 < n <= adapters.len(),
        adapters[n - 1].shaped(),
    ensures
        total_params(adapters, n) == total_params(adapters, (n - 1) as nat) + adapters[n - 1].a.len()
            + adapters[n - 1].b.len(),
        total_params(adapters, 0) == 0,
{
}

} // verus!
