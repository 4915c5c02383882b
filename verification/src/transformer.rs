//! Autoregressive generation: what is fed to the model and when its cache is cleared.

use vstd::prelude::*;

use crate::speculative::sampling;
use crate::types;
use crate::types::Config;

verus! {

/// What is fed to the model next.
#[derive(Clone, Copy, Debug, PartialEq, Eq, Structural)]
pub struct Feed {
    pub token: usize,
    pub pos: usize,
    /// The cache is to be cleared first.
    pub reset: bool,
}

/// A generation in progress: the next token and its position, what was generated, and how many
/// tokens are still to come.
#[derive(Debug)]
pub struct Generation {
    pub token: usize,
    pub pos: usize,
    pub tokens: Vec<usize>,
    pub left: usize,
}

/// What a generation stands for.
pub struct Progress {
    pub token: usize,
    pub pos: nat,
    pub tokens: Seq<usize>,
    pub left: nat,
}

impl View for Generation {
    type V = Progress;

    open spec fn view(&self) -> Progress {
        Progress {
            token: self.token,
            pos: self.pos as nat,
            tokens: self.tokens@,
            left: self.left as nat,
        }
    }
}

impl Progress {
    /// The position of the next token is one of a block, or just past it.
    pub open spec fn wf(self, config: Config) -> bool {
        self.pos <= config.block_size
    }

    /// A generation of `n` tokens before its first.
    pub open spec fn start(config: Config, n: nat) -> Progress {
        Progress { token: config.bos_token, pos: 0, tokens: seq![], left: n }
    }

    /// What is fed next: the last token at its place, or the start token where a block ends.
    pub open spec fn feed(self, config: Config) -> Option<Feed> {
        if self.left == 0 {
            None
        } else if self.pos >= config.block_size {
            Some(Feed { token: config.bos_token, pos: 0, reset: true })
        } else {
            Some(Feed { token: self.token, pos: self.pos as usize, reset: false })
        }
    }

    /// The generation while what was fed is worked on.
    pub open spec fn fed(self, config: Config) -> Progress {
        match self.feed(config) {
            Some(f) => Progress { token: f.token, pos: f.pos as nat, ..self },
            None => self,
        }
    }

    /// The generation after a token was sampled. The start token begins a block.
    pub open spec fn took(self, config: Config, t: usize) -> Progress {
        Progress {
            token: t,
            pos: if t == config.bos_token {
                0
            } else {
                self.pos + 1
            },
            tokens: self.tokens.push(t),
            left: (self.left - 1) as nat,
        }
    }
}

impl Generation {
    /// The position of the next token is one of a block, or just past it.
    pub open spec fn wf(self, config: Config) -> bool {
        self@.wf(config)
    }

    /// A generation of `n_tokens` tokens, which begins with the start token.
    pub fn begin(config: &Config, n_tokens: usize) -> (g: Generation)
        ensures
            g.wf(*config),
            g@ == Progress::start(*config, n_tokens as nat),
    {
        let g = Generation { token: config.bos_token, pos: 0, tokens: Vec::new(), left: n_tokens };
        assert(g@.tokens =~= seq![]);
        g
    }

    /// What to feed next, or nothing where all tokens are generated. At the end of a block the
    /// generation starts over.
    pub fn next_feed(&mut self, config: &Config) -> (f: Option<Feed>)
        requires
            old(self).wf(*config),
            config.block_size > 0,
        ensures
            final(self).wf(*config),
            f == old(self)@.feed(*config),
            final(self)@ == old(self)@.fed(*config),
            f is Some ==> final(self).pos < config.block_size,
    {
        if self.left == 0 {
            return None;
        }
        let mut reset: bool = false;
        if self.pos >= config.block_size {
            self.pos = 0;
            self.token = config.bos_token;
            reset = true;
        }
        Some(Feed { token: self.token, pos: self.pos, reset })
    }

    /// Take the token that was sampled. At the start token the generation starts over; the
    /// result says whether the cache is to be cleared.
    pub fn take_token(&mut self, config: &Config, next_token: usize) -> (reset: bool)
        requires
            old(self).pos < config.block_size,
            old(self).left > 0,
        ensures
            final(self).wf(*config),
            reset == (next_token == config.bos_token),
            final(self)@ == old(self)@.took(*config, next_token),
    {
        self.tokens.push(next_token);
        self.left = self.left - 1;
        self.token = next_token;
        if next_token == config.bos_token {
            self.pos = 0;
            true
        } else {
            self.pos = self.pos + 1;
            false
        }
    }
}

/// A generation of `n` tokens after `k` rounds, with all that was fed. What is sampled in a round
/// is up to the model: `sampled` gives the token for what was fed so far.
pub open spec fn after_rounds(
    config: Config,
    n: nat,
    sampled: spec_fn(Seq<Feed>) -> usize,
    k: nat,
) -> (Progress, Seq<Feed>)
    decreases k,
{
    if k == 0 {
        (Progress::start(config, n), seq![])
    } else {
        let (s, fed) = after_rounds(config, n, sampled, (k - 1) as nat);
        match s.feed(config) {
            Some(f) => (s.fed(config).took(config, sampled(fed.push(f))), fed.push(f)),
            None => (s, fed),
        }
    }
}

/// A generation gives exactly as many tokens as were asked for and then feeds nothing more. Each
/// token is the one sampled in its round, and what is fed lies within a block. Where every sampled
/// token is one of the vocabulary, so is every token that is generated or fed.
pub proof fn law_generation_gives_all_tokens(
    config: Config,
    n: nat,
    sampled: spec_fn(Seq<Feed>) -> usize,
)
    requires
        config.block_size > 0,
        config.bos_token < config.vocab_size,
    ensures
        ({
            let (s, fed) = after_rounds(config, n, sampled, n);
            &&& s.tokens.len() == n
            &&& s.feed(config) is None
            &&& fed.len() == n
            &&& forall|i: int|
                0 <= i < n ==> #[trigger] s.tokens[i] == sampled(fed.take(i + 1))
            &&& forall|i: int| 0 <= i < n ==> (#[trigger] fed[i]).pos < config.block_size
            &&& (forall|h: Seq<Feed>| #[trigger] sampled(h) < config.vocab_size) ==> {
                &&& forall|i: int| 0 <= i < n ==> #[trigger] s.tokens[i] < config.vocab_size
                &&& forall|i: int| 0 <= i < n ==> (#[trigger] fed[i]).token < config.vocab_size
            }
        }),
{
    lemma_rounds(config, n, sampled, n);
}

/// The tokens sampled from the model's distributions with a generator: in each round the token
/// that the round's uniform number falls below. `sums` gives the running sums of the distribution
/// for what was fed so far, and `state` is that of the generator before the first round.
pub open spec fn drawn(sums: spec_fn(Seq<Feed>) -> Seq<u32>, state: u64) -> spec_fn(
    Seq<Feed>,
) -> usize {
    |fed: Seq<Feed>|
        sampling::token_below(
            sums(fed),
            types::uniform_bits(types::xorshift_n(state, fed.len())) as u32,
        ) as usize
}

/// A generation from a model over a vocabulary gives exactly as many tokens as were asked for, all
/// of the vocabulary. With a model that gives the same distributions for what is fed, and a
/// generator in the same state, it gives the same tokens.
pub proof fn law_generation_is_valid_and_repeatable(
    config: Config,
    n: nat,
    sums: spec_fn(Seq<Feed>) -> Seq<u32>,
    again: spec_fn(Seq<Feed>) -> Seq<u32>,
    state: u64,
)
    requires
        config.block_size > 0,
        config.bos_token < config.vocab_size,
        forall|fed: Seq<Feed>| (#[trigger] sums(fed)).len() == config.vocab_size,
        forall|i: int|
            0 < i <= n ==> sums(
                #[trigger] after_rounds(config, n, drawn(sums, state), n).1.take(i),
            ) == again(after_rounds(config, n, drawn(sums, state), n).1.take(i)),
    ensures
        ({
            let tokens = after_rounds(config, n, drawn(sums, state), n).0.tokens;
            &&& tokens.len() == n
            &&& forall|i: int| 0 <= i < n ==> #[trigger] tokens[i] < config.vocab_size
            &&& after_rounds(config, n, drawn(again, state), n).0.tokens == tokens
        }),
{
    let f = drawn(sums, state);
    let g = drawn(again, state);
    assert forall|fed: Seq<Feed>| #[trigger] f(fed) < config.vocab_size by {
        let r = types::uniform_bits(types::xorshift_n(state, fed.len())) as u32;
        assert(sums(fed).len() == config.vocab_size);
        sampling::law_draw_falls_below_a_token(sums(fed), r);
    }
    law_generation_gives_all_tokens(config, n, f);
    let whole = after_rounds(config, n, f, n).1;
    assert forall|i: int| 0 < i <= n implies f(#[trigger] whole.take(i)) == g(whole.take(i)) by {
        assert(sums(whole.take(i)) == again(whole.take(i)));
    }
    law_generation_is_determined(config, n, f, g, n);
}

/// Generations in which the same tokens are sampled are the same.
pub proof fn law_generation_is_determined(
    config: Config,
    n: nat,
    a: spec_fn(Seq<Feed>) -> usize,
    b: spec_fn(Seq<Feed>) -> usize,
    k: nat,
)
    requires
        config.block_size > 0,
        k <= n,
        forall|i: int|
            0 < i <= k ==> a(#[trigger] after_rounds(config, n, a, k).1.take(i)) == b(
                after_rounds(config, n, a, k).1.take(i),
            ),
    ensures
        after_rounds(config, n, a, k) == after_rounds(config, n, b, k),
    decreases k,
{
    if k > 0 {
        let (s, fed) = after_rounds(config, n, a, (k - 1) as nat);
        let whole = after_rounds(config, n, a, k).1;
        lemma_rounds(config, n, a, (k - 1) as nat);
        assert(s.feed(config) is Some);
        assert(whole == fed.push(s.feed(config)->0));
        assert forall|i: int| 0 < i <= k - 1 implies a(#[trigger] fed.take(i)) == b(
            fed.take(i),
        ) by {
            assert(whole.take(i) =~= fed.take(i));
        }
        law_generation_is_determined(config, n, a, b, (k - 1) as nat);
        assert(whole.take(k as int) =~= whole);
    }
}

proof fn lemma_rounds(config: Config, n: nat, sampled: spec_fn(Seq<Feed>) -> usize, k: nat)
    requires
        config.block_size > 0,
        k <= n,
    ensures
        ({
            let (s, fed) = after_rounds(config, n, sampled, k);
            &&& s.wf(config)
            &&& s.tokens.len() == k
            &&& s.left == n - k
            &&& fed.len() == k
            &&& k > 0 ==> s.token == s.tokens[k - 1]
            &&& k == 0 ==> s.token == config.bos_token
            &&& forall|i: int|
                0 <= i < k ==> #[trigger] s.tokens[i] == sampled(fed.take(i + 1))
            &&& forall|i: int| 0 <= i < k ==> (#[trigger] fed[i]).pos < config.block_size
            &&& forall|i: int|
                0 <= i < k ==> (#[trigger] fed[i]).token == config.bos_token || (i > 0
                    && fed[i].token == s.tokens[i - 1])
        }),
    decreases k,
{
    if k > 0 {
        lemma_rounds(config, n, sampled, (k - 1) as nat);
        let (p, before) = after_rounds(config, n, sampled, (k - 1) as nat);
        let (s, fed) = after_rounds(config, n, sampled, k);
        assert(fed == before.push(p.feed(config)->0));
        assert(fed.take(k as int) =~= fed);
        assert forall|i: int| 0 <= i < k implies #[trigger] s.tokens[i] == sampled(
            fed.take(i + 1),
        ) by {
            if i < k - 1 {
                assert(fed.take(i + 1) =~= before.take(i + 1));
                assert(s.tokens[i] == p.tokens[i]);
            }
        }
    }
}

/// The character of a token: a letter, or `_` for the start token and beyond.
pub open spec fn token_char(t: usize) -> char {
    if t < 26 {
        (97 + t) as char
    } else {
        '_'
    }
}

/// Convert token ids to readable characters (a-z, _ for BOS).
pub fn tokens_to_string(tokens: &[usize]) -> (s: String)
    ensures
        s@ == tokens@.map_values(|t: usize| token_char(t)),
{
    let mut s = String::new();
    let mut i: usize = 0;
    assert(s@ =~= tokens@.map_values(|t: usize| token_char(t)).take(0));
    while i < tokens.len()
        invariant
            i <= tokens@.len(),
            s@ =~= tokens@.map_values(|t: usize| token_char(t)).take(i as int),
        decreases tokens@.len() - i,
    {
        let t: usize = tokens[i];
        if t < 26 {
            s.push((97 + t as u8) as char);
        } else {
            s.push('_');
        }
        i = i + 1;
    }
    assert(s@ =~= tokens@.map_values(|t: usize| token_char(t)));
    s
}

/// Different letters stand for different tokens.
pub proof fn law_letters_are_distinct(a: usize, b: usize)
    requires
        token_char(a) == token_char(b),
        a < 26,
    ensures
        a == b,
{
}

/// Generation starts with the start token at the first place. What was sampled is fed next at the
/// next place; where that would be past the block, and after the start token was sampled, the
/// next block begins with the start token.
pub proof fn law_sampled_tokens_are_fed_next(config: Config, s: Progress, n: nat, t: usize)
    requires
        s.wf(config),
        s.pos < config.block_size,
        s.left > 1,
    ensures
        n > 0 && config.block_size > 0 ==> Progress::start(config, n).feed(config) == Some(
            Feed { token: config.bos_token, pos: 0, reset: false },
        ),
        t != config.bos_token && s.pos + 1 < config.block_size ==> s.took(config, t).feed(config)
            == Some(Feed { token: t, pos: (s.pos + 1) as usize, reset: false }),
        t != config.bos_token && s.pos + 1 == config.block_size ==> s.took(config, t).feed(config)
            == Some(Feed { token: config.bos_token, pos: 0, reset: true }),
        t == config.bos_token ==> s.took(config, t).feed(config) == Some(
            Feed { token: t, pos: 0, reset: false },
        ),
        s.took(config, t).tokens.last() == t,
        s.took(config, t).tokens.drop_last() == s.tokens,
        s.took(config, t).left == s.left - 1,
{
    assert(s.took(config, t).tokens.drop_last() =~= s.tokens);
}

/// The letters stand for the tokens in order, from `a` for the first to `z` for the twenty-sixth;
/// every token after that is the underscore.
pub proof fn law_letters_are_in_order(t: usize)
    ensures
        token_char(0) == 'a',
        token_char(25) == 'z',
        t < 25 ==> token_char((t + 1) as usize) as int == token_char(t) as int + 1,
        t >= 26 ==> token_char(t) == '_',
{
}

} // verus!
