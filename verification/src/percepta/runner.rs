//! Pipeline runner: compile, build, run, evaluate.
//!
//! The stages that evaluate a graph or run a transformer are handed in as functions; the runner
//! decides when they are called and what is returned.

use vstd::prelude::*;

use crate::text::chars_of;
use crate::text::prefixed;
use crate::text::same_chars;

verus! {

/// Errors that can occur during pipeline execution.
#[derive(Debug)]
pub enum RunnerError {
    /// Error during scheduling.
    ScheduleError(String),
    /// Error during graph evaluation.
    EvalError(String),
    /// Error during compilation (e.g., clang not found).
    CompileError(String),
    /// Error during weight construction.
    WeightError(String),
    /// The token prefix is empty or invalid.
    InvalidPrefix(String),
    /// Feature not yet implemented.
    NotImplemented(String),
}

impl RunnerError {
    /// What a message of this error says.
    pub open spec fn text(self) -> Seq<char> {
        match self {
            RunnerError::ScheduleError(e) => "schedule error: "@ + e@,
            RunnerError::EvalError(e) => "eval error: "@ + e@,
            RunnerError::CompileError(m) => "compile error: "@ + m@,
            RunnerError::WeightError(m) => "weight error: "@ + m@,
            RunnerError::InvalidPrefix(m) => "invalid prefix: "@ + m@,
            RunnerError::NotImplemented(m) => "not implemented: "@ + m@,
        }
    }

    /// The message of this error.
    pub fn message(&self) -> (s: String)
        ensures
            s@ == self.text(),
    {
        match self {
            RunnerError::ScheduleError(e) => prefixed("schedule error: ", e.as_str()),
            RunnerError::EvalError(e) => prefixed("eval error: ", e.as_str()),
            RunnerError::CompileError(m) => prefixed("compile error: ", m.as_str()),
            RunnerError::WeightError(m) => prefixed("weight error: ", m.as_str()),
            RunnerError::InvalidPrefix(m) => prefixed("invalid prefix: ", m.as_str()),
            RunnerError::NotImplemented(m) => prefixed("not implemented: ", m.as_str()),
        }
    }
}

/// Dimensions of a transformer and how it stops.
#[derive(Debug)]
pub struct TransformerConfig {
    pub d_model: usize,
    pub n_heads: usize,
    pub n_layers: usize,
    pub d_ffn: usize,
    pub stop_token: String,
    pub max_gen: usize,
}

/// Weights `W` with the dimensions that they were built for.
#[derive(Debug)]
pub struct ModelWeights<W> {
    pub weights: W,
    pub d_model: usize,
    pub n_heads: usize,
    pub n_layers: usize,
    pub d_ffn: usize,
}

/// Result of the build pipeline: weights `W`, their configuration, the token names, and the
/// schedule `S`, graph `P` and token expressions `E` that they were built from.
#[derive(Debug)]
pub struct BuildResult<W, S, P, E> {
    /// Transformer weights ready for inference.
    pub weights: W,
    pub config: TransformerConfig,
    /// Token names, each at its number.
    pub vocab: Vec<String>,
    /// The schedule used for weight construction.
    pub schedule: S,
    /// The computation graph.
    pub graph: P,
    /// Input tokens by name.
    pub input_tokens: Vec<(String, E)>,
    /// Output tokens by name.
    pub output_tokens: Vec<(String, E)>,
}

/// The configuration of built weights: generation stops at `halt` or after 50000 tokens.
pub open spec fn configures<W>(config: TransformerConfig, built: ModelWeights<W>) -> bool {
    &&& config.d_model == built.d_model
    &&& config.n_heads == built.n_heads
    &&& config.n_layers == built.n_layers
    &&& config.d_ffn == built.d_ffn
    &&& config.stop_token@ == "halt"@
    &&& config.max_gen == 50000
}

/// What is built from a graph: the scheduler decides between its error and the weights.
pub open spec fn builds<
    W,
    S,
    P,
    E,
    A: FnOnce(&P, Option<usize>) -> Result<S, String>,
    B: FnOnce(&P, &S) -> ModelWeights<W>,
>(
    r: Result<BuildResult<W, S, P, E>, RunnerError>,
    graph: P,
    input_tokens: Vec<(String, E)>,
    output_tokens: Vec<(String, E)>,
    vocab: Vec<String>,
    max_layers: Option<usize>,
    schedule: A,
    weigh: B,
) -> bool {
    exists|found: Result<S, String>| #[trigger]
        call_ensures(schedule, (&graph, max_layers), found) && match found {
            Err(m) => r == Err::<BuildResult<W, S, P, E>, RunnerError>(
                RunnerError::ScheduleError(m),
            ),
            Ok(s) => r matches Ok(b) && b.schedule == s && b.graph == graph && b.input_tokens
                == input_tokens && b.output_tokens == output_tokens && b.vocab == vocab
                && exists|w: ModelWeights<W>| #[trigger]
                call_ensures(weigh, (&graph, &s), w) && b.weights == w.weights && configures(
                    b.config,
                    w,
                ),
        }
}

/// The names of tokens.
pub open spec fn names_of<E>(tokens: Seq<(String, E)>) -> Seq<Seq<char>> {
    Seq::new(tokens.len(), |i: int| tokens[i].0@)
}

/// The first place of a text among the first `n` names.
pub open spec fn first_place(names: Seq<Seq<char>>, t: Seq<char>, n: nat) -> Option<int>
    decreases n,
{
    if n == 0 {
        None
    } else {
        match first_place(names, t, (n - 1) as nat) {
            Some(i) => Some(i),
            None => if names[n - 1] == t {
                Some(n - 1)
            } else {
                None
            },
        }
    }
}

/// The places of the first `n` texts of a vocabulary among the names, those that are there.
pub open spec fn places(vocab: Seq<Seq<char>>, names: Seq<Seq<char>>, n: nat) -> Seq<int>
    decreases n,
{
    if n == 0 {
        seq![]
    } else {
        let rest = places(vocab, names, (n - 1) as nat);
        match first_place(names, vocab[n - 1], names.len()) {
            Some(i) => rest.push(i),
            None => rest,
        }
    }
}

/// True of the vocabulary of two lists of names: each name once, in ascending order.
pub open spec fn is_vocabulary(
    vocab: Seq<Seq<char>>,
    inputs: Seq<Seq<char>>,
    outputs: Seq<Seq<char>>,
) -> bool {
    &&& ascending(vocab)
    &&& forall|t: Seq<char>| #[trigger]
        vocab.contains(t) <==> (inputs.contains(t) || outputs.contains(t))
}

/// True of a list that gives the tokens in the order of the vocabulary, by their places.
pub open spec fn orders<E>(
    order: Seq<usize>,
    vocab: Seq<Seq<char>>,
    tokens: Seq<(String, E)>,
) -> bool {
    order.map_values(|i: usize| i as int) == places(vocab, names_of(tokens), vocab.len())
}

/// True when the stages of a build can be called.
pub open spec fn can_build<
    W,
    S,
    P,
    E,
    I: FnOnce() -> (Vec<(String, E)>, Vec<(String, E)>),
    M: FnOnce(&Vec<(String, E)>, &Vec<usize>, &Vec<(String, E)>, &Vec<usize>) -> P,
    A: FnOnce(&P, Option<usize>) -> Result<S, String>,
    B: FnOnce(&P, &S) -> ModelWeights<W>,
>(max_layers: Option<usize>, interpret: I, assemble: M, schedule: A, weigh: B) -> bool {
    &&& call_requires(interpret, ())
    &&& forall|a: Vec<(String, E)>, p: Vec<usize>, b: Vec<(String, E)>, q: Vec<usize>| #[trigger]
        call_requires(assemble, (&a, &p, &b, &q))
    &&& forall|g: P| #[trigger] call_requires(schedule, (&g, max_layers))
    &&& forall|g: P, s: S| #[trigger] call_requires(weigh, (&g, &s))
}

/// What the stages of a build give one after another: tokens, their names, a graph of the tokens
/// in the order of their names, and what is built from it.
pub open spec fn builds_from_tokens<
    W,
    S,
    P,
    E,
    I: FnOnce() -> (Vec<(String, E)>, Vec<(String, E)>),
    M: FnOnce(&Vec<(String, E)>, &Vec<usize>, &Vec<(String, E)>, &Vec<usize>) -> P,
    A: FnOnce(&P, Option<usize>) -> Result<S, String>,
    B: FnOnce(&P, &S) -> ModelWeights<W>,
>(
    r: Result<BuildResult<W, S, P, E>, RunnerError>,
    max_layers: Option<usize>,
    interpret: I,
    assemble: M,
    schedule: A,
    weigh: B,
) -> bool {
    exists|
        inputs: Vec<(String, E)>,
        outputs: Vec<(String, E)>,
        vocab: Vec<String>,
        input_order: Vec<usize>,
        output_order: Vec<usize>,
        graph: P,
    |
        {
            &&& call_ensures(interpret, (), (inputs, outputs))
            &&& is_vocabulary(texts(vocab@), names_of(inputs@), names_of(outputs@))
            &&& orders(input_order@, texts(vocab@), inputs@)
            &&& orders(output_order@, texts(vocab@), outputs@)
            &&& #[trigger] call_ensures(
                assemble,
                (&inputs, &input_order, &outputs, &output_order),
                graph,
            )
            &&& #[trigger] builds(
                r,
                graph,
                inputs,
                outputs,
                vocab,
                max_layers,
                schedule,
                weigh,
            )
        }
}

/// The error of an empty prefix.
pub open spec fn refuses_prefix<T>(r: Result<T, RunnerError>) -> bool {
    r matches Err(RunnerError::InvalidPrefix(m)) && m@ == "token prefix must not be empty"@
}

/// A text comes before another: by its first differing character, or by being its beginning.
pub open spec fn before(a: Seq<char>, b: Seq<char>) -> bool
    decreases a.len(),
{
    if b.len() == 0 {
        false
    } else if a.len() == 0 {
        true
    } else if a[0] != b[0] {
        a[0] < b[0]
    } else {
        before(a.skip(1), b.skip(1))
    }
}

proof fn lemma_before_irreflexive(a: Seq<char>)
    ensures
        !before(a, a),
    decreases a.len(),
{
    if a.len() > 0 {
        lemma_before_irreflexive(a.skip(1));
    }
}

proof fn lemma_before_transitive(a: Seq<char>, b: Seq<char>, c: Seq<char>)
    requires
        before(a, b),
        before(b, c),
    ensures
        before(a, c),
    decreases a.len(),
{
    if a.len() > 0 && b.len() > 0 && c.len() > 0 && a[0] == b[0] && b[0] == c[0] {
        lemma_before_transitive(a.skip(1), b.skip(1), c.skip(1));
    }
}

proof fn lemma_before_total(a: Seq<char>, b: Seq<char>)
    ensures
        before(a, b) || before(b, a) || a == b,
    decreases a.len(),
{
    if a.len() > 0 && b.len() > 0 {
        if a[0] == b[0] {
            lemma_before_total(a.skip(1), b.skip(1));
            if a.skip(1) == b.skip(1) {
                assert(a =~= seq![a[0]] + a.skip(1));
                assert(b =~= seq![b[0]] + b.skip(1));
            }
        }
    } else if a.len() == 0 && b.len() == 0 {
        assert(a =~= b);
    }
}

/// The order of texts is strict and total.
pub proof fn law_text_order_is_strict_and_total(a: Seq<char>, b: Seq<char>, c: Seq<char>)
    ensures
        !before(a, a),
        before(a, b) && before(b, c) ==> before(a, c),
        before(a, b) || before(b, a) || a == b,
{
    lemma_before_irreflexive(a);
    lemma_before_total(a, b);
    if before(a, b) && before(b, c) {
        lemma_before_transitive(a, b, c);
    }
}

fn comes_before(a: &[char], b: &[char]) -> (r: bool)
    ensures
        r == before(a@, b@),
{
    let mut i: usize = 0;
    assert(a@.skip(0) =~= a@ && b@.skip(0) =~= b@);
    while i < a.len() && i < b.len()
        invariant
            i <= a@.len(),
            i <= b@.len(),
            before(a@, b@) == before(a@.skip(i as int), b@.skip(i as int)),
        decreases a@.len() - i,
    {
        let ghost x = a@.skip(i as int);
        let ghost y = b@.skip(i as int);
        if a[i] != b[i] {
            return a[i] < b[i];
        }
        assert(x.skip(1) =~= a@.skip(i + 1));
        assert(y.skip(1) =~= b@.skip(i + 1));
        i = i + 1;
    }
    i < b.len()
}

/// Texts in strictly ascending order.
pub open spec fn ascending(s: Seq<Seq<char>>) -> bool {
    forall|i: int, j: int| 0 <= i < j < s.len() ==> before(#[trigger] s[i], #[trigger] s[j])
}

/// The texts of a list of names.
pub open spec fn texts(v: Seq<String>) -> Seq<Seq<char>> {
    v.map_values(|s: String| s@)
}

/// Put a name in its place in an ascending list, unless it is there.
fn insert_name(names: &mut Vec<String>, name: &String)
    requires
        ascending(texts(old(names)@)),
    ensures
        ascending(texts(final(names)@)),
        forall|t: Seq<char>| #[trigger]
            texts(final(names)@).contains(t) <==> (texts(old(names)@).contains(t) || t == name@),
{
    let wanted = chars_of(name.as_str());
    let ghost start = texts(names@);
    let mut i: usize = 0;
    while i < names.len()
        invariant
            i <= names@.len(),
            names@ == old(names)@,
            start == texts(names@),
            ascending(start),
            wanted@ == name@,
            forall|j: int| 0 <= j < i ==> before(#[trigger] start[j], name@),
        decreases names@.len() - i,
    {
        let here = chars_of(names[i].as_str());
        assert(start[i as int] == here@);
        if same_chars(here.as_slice(), wanted.as_slice()) {
            assert(start.contains(name@));
            return;
        }
        if !comes_before(here.as_slice(), wanted.as_slice()) {
            proof {
                lemma_before_total(here@, wanted@);
                lemma_inserted(start, i as int, name@);
            }
            let copy = name.as_str().to_owned();
            names.insert(i, copy);
            assert(texts(names@) =~= start.insert(i as int, name@));
            return;
        }
        i = i + 1;
    }
    proof {
        lemma_inserted(start, start.len() as int, name@);
    }
    names.push(name.as_str().to_owned());
    assert(texts(names@) =~= start.insert(start.len() as int, name@));
}

proof fn lemma_inserted(s: Seq<Seq<char>>, i: int, t: Seq<char>)
    requires
        ascending(s),
        0 <= i <= s.len(),
        forall|j: int| 0 <= j < i ==> before(#[trigger] s[j], t),
        i < s.len() ==> before(t, s[i]),
    ensures
        ascending(s.insert(i, t)),
        forall|u: Seq<char>| #[trigger]
            s.insert(i, t).contains(u) <==> (s.contains(u) || u == t),
{
    let r = s.insert(i, t);
    assert forall|a: int, b: int| 0 <= a < b < r.len() implies before(
        #[trigger] r[a],
        #[trigger] r[b],
    ) by {
        if a == i && b > i + 1 {
            assert(r[b] == s[b - 1]);
            lemma_before_transitive(t, s[i], s[b - 1]);
        } else if a < i && b > i {
            assert(r[a] == s[a] && r[b] == s[b - 1]);
        } else if a > i {
            assert(r[a] == s[a - 1] && r[b] == s[b - 1]);
        }
    }
    assert forall|u: Seq<char>| #[trigger] r.contains(u) <==> (s.contains(u) || u == t) by {
        if s.contains(u) {
            let k = choose|k: int| 0 <= k < s.len() && s[k] == u;
            if k < i {
                assert(r[k] == u);
            } else {
                assert(r[k + 1] == u);
            }
        }
        if u == t {
            assert(r[i] == u);
        }
        if r.contains(u) {
            let k = choose|k: int| 0 <= k < r.len() && r[k] == u;
            if k < i {
                assert(s[k] == u);
            } else if k > i {
                assert(s[k - 1] == u);
            }
        }
    }
}

/// Pipeline runner. All functions are independent of one another.
#[derive(Clone, Copy, Debug, PartialEq, Eq, Structural)]
pub struct Runner;

impl Runner {
    /// Compile C source to a token prefix, which is not implemented.
    pub fn compile(_source: &str) -> (r: Result<Vec<String>, RunnerError>)
        ensures
            r matches Err(RunnerError::NotImplemented(m)) && m@
                == "compile pipeline requires clang; provide pre-compiled WASM or token prefix"@,
    {
        Err(
            RunnerError::NotImplemented(
                "compile pipeline requires clang; provide pre-compiled WASM or token prefix".to_owned(),
            ),
        )
    }

    /// The token names of a model: those of its inputs and those of its outputs, each once, in
    /// ascending order.
    pub fn vocabulary(inputs: &Vec<String>, outputs: &Vec<String>) -> (names: Vec<String>)
        ensures
            is_vocabulary(texts(names@), texts(inputs@), texts(outputs@)),
    {
        let mut names: Vec<String> = Vec::new();
        let mut i: usize = 0;
        while i < inputs.len()
            invariant
                i <= inputs@.len(),
                ascending(texts(names@)),
                forall|t: Seq<char>| #[trigger]
                    texts(names@).contains(t) <==> texts(inputs@).take(i as int).contains(t),
            decreases inputs@.len() - i,
        {
            insert_name(&mut names, &inputs[i]);
            proof {
                lemma_take_grows(texts(inputs@), i as int);
            }
            i = i + 1;
        }
        assert(texts(inputs@).take(inputs@.len() as int) =~= texts(inputs@));
        i = 0;
        while i < outputs.len()
            invariant
                i <= outputs@.len(),
                ascending(texts(names@)),
                forall|t: Seq<char>| #[trigger]
                    texts(names@).contains(t) <==> (texts(inputs@).contains(t) || texts(
                        outputs@,
                    ).take(i as int).contains(t)),
            decreases outputs@.len() - i,
        {
            insert_name(&mut names, &outputs[i]);
            proof {
                lemma_take_grows(texts(outputs@), i as int);
            }
            i = i + 1;
        }
        assert(texts(outputs@).take(outputs@.len() as int) =~= texts(outputs@));
        names
    }

    fn token_names<E>(tokens: &Vec<(String, E)>) -> (names: Vec<String>)
        ensures
            texts(names@) == names_of(tokens@),
    {
        let mut names: Vec<String> = Vec::new();
        let mut i: usize = 0;
        while i < tokens.len()
            invariant
                i <= tokens@.len(),
                names@.len() == i,
                forall|j: int| 0 <= j < i ==> (#[trigger] names@[j])@ == tokens@[j].0@,
            decreases tokens@.len() - i,
        {
            names.push(tokens[i].0.as_str().to_owned());
            i = i + 1;
        }
        assert(texts(names@) =~= names_of(tokens@));
        names
    }

    fn place_of<E>(tokens: &Vec<(String, E)>, name: &String) -> (r: Option<usize>)
        ensures
            r is Some == first_place(names_of(tokens@), name@, tokens@.len()) is Some,
            r matches Some(i) ==> i < tokens@.len() && first_place(
                names_of(tokens@),
                name@,
                tokens@.len(),
            ) == Some(i as int),
    {
        let wanted = chars_of(name.as_str());
        let mut found: Option<usize> = None;
        let mut i: usize = 0;
        while i < tokens.len()
            invariant
                i <= tokens@.len(),
                wanted@ == name@,
                found is Some == first_place(names_of(tokens@), name@, i as nat) is Some,
                found matches Some(k) ==> k < i && first_place(
                    names_of(tokens@),
                    name@,
                    i as nat,
                ) == Some(k as int),
            decreases tokens@.len() - i,
        {
            if found.is_none() {
                let own = chars_of(tokens[i].0.as_str());
                if same_chars(own.as_slice(), wanted.as_slice()) {
                    found = Some(i);
                }
            }
            i = i + 1;
        }
        found
    }

    /// The places of the tokens in the order of the vocabulary. A name without a token is passed
    /// over.
    pub fn token_order<E>(vocab: &Vec<String>, tokens: &Vec<(String, E)>) -> (order: Vec<usize>)
        ensures
            orders(order@, texts(vocab@), tokens@),
            forall|i: int| 0 <= i < order@.len() ==> #[trigger] order@[i] < tokens@.len(),
    {
        let mut order: Vec<usize> = Vec::new();
        let mut i: usize = 0;
        assert(order@.map_values(|i: usize| i as int) =~= seq![]);
        while i < vocab.len()
            invariant
                i <= vocab@.len(),
                order@.map_values(|i: usize| i as int) == places(
                    texts(vocab@),
                    names_of(tokens@),
                    i as nat,
                ),
                forall|i: int| 0 <= i < order@.len() ==> #[trigger] order@[i] < tokens@.len(),
            decreases vocab@.len() - i,
        {
            if let Some(k) = Runner::place_of(tokens, &vocab[i]) {
                let ghost before = order@;
                order.push(k);
                assert(order@.map_values(|i: usize| i as int) =~= before.map_values(
                    |i: usize| i as int,
                ).push(k as int));
            }
            i = i + 1;
        }
        order
    }

    /// Build pipeline: interpret, name the tokens, assemble the graph from the tokens in the order
    /// of their names, and build from it.
    ///
    /// `interpret` gives the input and the output tokens. `assemble` is given each list with the
    /// places of its tokens in the order of the vocabulary.
    pub fn build<
        W,
        S,
        P,
        E,
        I: FnOnce() -> (Vec<(String, E)>, Vec<(String, E)>),
        M: FnOnce(&Vec<(String, E)>, &Vec<usize>, &Vec<(String, E)>, &Vec<usize>) -> P,
        A: FnOnce(&P, Option<usize>) -> Result<S, String>,
        B: FnOnce(&P, &S) -> ModelWeights<W>,
    >(max_layers: Option<usize>, interpret: I, assemble: M, schedule: A, weigh: B) -> (r: Result<
        BuildResult<W, S, P, E>,
        RunnerError,
    >)
        requires
            can_build::<W, S, P, E, I, M, A, B>(
                max_layers,
                interpret,
                assemble,
                schedule,
                weigh,
            ),
        ensures
            builds_from_tokens(r, max_layers, interpret, assemble, schedule, weigh),
    {
        let (inputs, outputs) = interpret();
        let vocab = Runner::vocabulary(
            &Runner::token_names(&inputs),
            &Runner::token_names(&outputs),
        );
        let input_order = Runner::token_order(&vocab, &inputs);
        let output_order = Runner::token_order(&vocab, &outputs);
        let graph = assemble(&inputs, &input_order, &outputs, &output_order);
        Runner::build_from_graph(graph, inputs, outputs, vocab, max_layers, schedule, weigh)
    }

    /// Build the universal model without running it.
    pub fn build_universal<
        W,
        S,
        P,
        E,
        I: FnOnce() -> (Vec<(String, E)>, Vec<(String, E)>),
        M: FnOnce(&Vec<(String, E)>, &Vec<usize>, &Vec<(String, E)>, &Vec<usize>) -> P,
        A: FnOnce(&P, Option<usize>) -> Result<S, String>,
        B: FnOnce(&P, &S) -> ModelWeights<W>,
    >(max_layers: Option<usize>, interpret: I, assemble: M, schedule: A, weigh: B) -> (r: Result<
        BuildResult<W, S, P, E>,
        RunnerError,
    >)
        requires
            can_build::<W, S, P, E, I, M, A, B>(
                max_layers,
                interpret,
                assemble,
                schedule,
                weigh,
            ),
        ensures
            builds_from_tokens(r, max_layers, interpret, assemble, schedule, weigh),
    {
        Runner::build(max_layers, interpret, assemble, schedule, weigh)
    }

    /// Build a transformer from a graph: schedule it, build the weights from the schedule, and
    /// keep both with the tokens. An error of the scheduler is returned as such.
    pub fn build_from_graph<
        W,
        S,
        P,
        E,
        A: FnOnce(&P, Option<usize>) -> Result<S, String>,
        B: FnOnce(&P, &S) -> ModelWeights<W>,
    >(
        graph: P,
        input_tokens: Vec<(String, E)>,
        output_tokens: Vec<(String, E)>,
        vocab: Vec<String>,
        max_layers: Option<usize>,
        schedule: A,
        weigh: B,
    ) -> (r: Result<BuildResult<W, S, P, E>, RunnerError>)
        requires
            call_requires(schedule, (&graph, max_layers)),
            forall|s: S| #[trigger]
                call_ensures(schedule, (&graph, max_layers), Ok(s)) ==> call_requires(
                    weigh,
                    (&graph, &s),
                ),
        ensures
            builds(
                r,
                graph,
                input_tokens,
                output_tokens,
                vocab,
                max_layers,
                schedule,
                weigh,
            ),
    {
        let found = schedule(&graph, max_layers);
        match found {
            Err(m) => Err(RunnerError::ScheduleError(m)),
            Ok(s) => {
                let built = weigh(&graph, &s);
                let config = TransformerConfig {
                    d_model: built.d_model,
                    n_heads: built.n_heads,
                    n_layers: built.n_layers,
                    d_ffn: built.d_ffn,
                    stop_token: "halt".to_owned(),
                    max_gen: 50000,
                };
                assert(configures(config, built));
                Ok(
                    BuildResult {
                        weights: built.weights,
                        config,
                        vocab,
                        schedule: s,
                        graph,
                        input_tokens,
                        output_tokens,
                    },
                )
            },
        }
    }

    /// Run generation with raw weights: an empty prefix is refused, any other is handed to
    /// `generate` with the weights, their configuration and the token names.
    pub fn run_with_weights<
        W,
        G,
        F: FnOnce(&W, &TransformerConfig, &Vec<String>, &Vec<String>, usize) -> G,
    >(
        weights: &W,
        config: &TransformerConfig,
        vocab: &Vec<String>,
        prefix: &Vec<String>,
        max_tokens: usize,
        generate: F,
    ) -> (r: Result<G, RunnerError>)
        requires
            prefix@.len() > 0 ==> call_requires(
                generate,
                (weights, config, vocab, prefix, max_tokens),
            ),
        ensures
            prefix@.len() == 0 ==> refuses_prefix(r),
            prefix@.len() > 0 ==> (r matches Ok(g) && call_ensures(
                generate,
                (weights, config, vocab, prefix, max_tokens),
                g,
            )),
    {
        if prefix.len() == 0 {
            return Err(RunnerError::InvalidPrefix("token prefix must not be empty".to_owned()));
        }
        Ok(generate(weights, config, vocab, prefix, max_tokens))
    }

    /// Run generation with a built transformer.
    pub fn run<
        W,
        S,
        P,
        E,
        G,
        F: FnOnce(&W, &TransformerConfig, &Vec<String>, &Vec<String>, usize) -> G,
    >(
        build: &BuildResult<W, S, P, E>,
        prefix: &Vec<String>,
        max_tokens: usize,
        generate: F,
    ) -> (r: Result<G, RunnerError>)
        requires
            prefix@.len() > 0 ==> call_requires(
                generate,
                (&build.weights, &build.config, &build.vocab, prefix, max_tokens),
            ),
        ensures
            prefix@.len() == 0 ==> refuses_prefix(r),
            prefix@.len() > 0 ==> (r matches Ok(g) && call_ensures(
                generate,
                (&build.weights, &build.config, &build.vocab, prefix, max_tokens),
                g,
            )),
    {
        Runner::run_with_weights(
            &build.weights,
            &build.config,
            &build.vocab,
            prefix,
            max_tokens,
            generate,
        )
    }

    /// Evaluate a prefix with a graph evaluator: its tokens are the result.
    pub fn evaluate<F: FnOnce(&Vec<String>, usize) -> Vec<String>>(
        prefix: &Vec<String>,
        max_steps: usize,
        evaluator: F,
    ) -> (r: Result<Vec<String>, RunnerError>)
        requires
            call_requires(evaluator, (prefix, max_steps)),
        ensures
            r matches Ok(tokens) && call_ensures(evaluator, (prefix, max_steps), tokens),
    {
        Ok(evaluator(prefix, max_steps))
    }

    /// Evaluate a prefix with a graph evaluator that also gives the decoded output.
    pub fn evaluate_with_output<F: FnOnce(&Vec<String>, usize) -> (Vec<String>, String)>(
        prefix: &Vec<String>,
        max_steps: usize,
        evaluator: F,
    ) -> (r: Result<(Vec<String>, String), RunnerError>)
        requires
            call_requires(evaluator, (prefix, max_steps)),
        ensures
            r matches Ok(out) && call_ensures(evaluator, (prefix, max_steps), out),
    {
        Ok(evaluator(prefix, max_steps))
    }

    /// Evaluate a program from a prefix.
    pub fn evaluate_from_prefix<F: FnOnce(&Vec<String>, usize) -> Vec<String>>(
        prefix: &Vec<String>,
        max_steps: usize,
        evaluator: F,
    ) -> (r: Result<Vec<String>, RunnerError>)
        requires
            call_requires(evaluator, (prefix, max_steps)),
        ensures
            r matches Ok(tokens) && call_ensures(evaluator, (prefix, max_steps), tokens),
    {
        Runner::evaluate(prefix, max_steps, evaluator)
    }

    /// Full pipeline: evaluate with the evaluator of the universal graph.
    pub fn full_evaluate<F: FnOnce(&Vec<String>, usize) -> Vec<String>>(
        prefix: &Vec<String>,
        max_steps: usize,
        evaluator: F,
    ) -> (r: Result<Vec<String>, RunnerError>)
        requires
            call_requires(evaluator, (prefix, max_steps)),
        ensures
            r matches Ok(tokens) && call_ensures(evaluator, (prefix, max_steps), tokens),
    {
        Runner::evaluate(prefix, max_steps, evaluator)
    }

    /// Specialize a universal model for a program, which is not implemented.
    pub fn specialize<W, S, P, E>(_build: &BuildResult<W, S, P, E>) -> (r: Result<
        BuildResult<W, S, P, E>,
        RunnerError,
    >)
        ensures
            r matches Err(RunnerError::NotImplemented(m)) && m@
                == "specialize pipeline (Futamura projection) not yet implemented"@,
    {
        Err(
            RunnerError::NotImplemented(
                "specialize pipeline (Futamura projection) not yet implemented".to_owned(),
            ),
        )
    }

    /// Full pipeline: build, then run. An error of the build is returned as it is, before the
    /// prefix is looked at.
    pub fn full_pipeline<
        W,
        S,
        P,
        E,
        G,
        B: FnOnce(Option<usize>) -> Result<BuildResult<W, S, P, E>, RunnerError>,
        F: FnOnce(&W, &TransformerConfig, &Vec<String>, &Vec<String>, usize) -> G,
    >(
        prefix: &Vec<String>,
        max_layers: Option<usize>,
        max_tokens: usize,
        build: B,
        generate: F,
    ) -> (r: Result<G, RunnerError>)
        requires
            call_requires(build, (max_layers,)),
            forall|b: BuildResult<W, S, P, E>| #[trigger]
                call_ensures(build, (max_layers,), Ok(b)) ==> call_requires(
                    generate,
                    (&b.weights, &b.config, &b.vocab, prefix, max_tokens),
                ),
        ensures
            exists|built: Result<BuildResult<W, S, P, E>, RunnerError>| #[trigger]
                call_ensures(build, (max_layers,), built) && match built {
                    Err(e) => r == Err::<G, RunnerError>(e),
                    Ok(b) => if prefix@.len() == 0 {
                        refuses_prefix(r)
                    } else {
                        r matches Ok(g) && call_ensures(
                            generate,
                            (&b.weights, &b.config, &b.vocab, prefix, max_tokens),
                            g,
                        )
                    },
                },
    {
        match build(max_layers) {
            Ok(b) => Runner::run(&b, prefix, max_tokens, generate),
            Err(e) => Err(e),
        }
    }
}

proof fn lemma_take_grows(s: Seq<Seq<char>>, i: int)
    requires
        0 <= i < s.len(),
    ensures
        forall|t: Seq<char>| #[trigger]
            s.take(i + 1).contains(t) <==> (s.take(i).contains(t) || t == s[i]),
{
    let long = s.take(i + 1);
    let short = s.take(i);
    assert forall|t: Seq<char>| #[trigger]
        long.contains(t) <==> (short.contains(t) || t == s[i]) by {
        if short.contains(t) {
            let k = choose|k: int| 0 <= k < short.len() && short[k] == t;
            assert(long[k] == t);
        }
        if t == s[i] {
            assert(long[i] == t);
        }
        if long.contains(t) {
            let k = choose|k: int| 0 <= k < long.len() && long[k] == t;
            if k < i {
                assert(short[k] == t);
            }
        }
    }
}

/// Texts are ordered by the first character in which they differ, and a beginning comes before what
/// it begins.
pub proof fn law_text_order_is_that_of_characters(
    common: Seq<char>,
    a: char,
    b: char,
    x: Seq<char>,
    y: Seq<char>,
)
    ensures
        a < b ==> before(common + seq![a] + x, common + seq![b] + y),
        before(common, common + seq![b] + y),
    decreases common.len(),
{
    let (p, q) = (common + seq![a] + x, common + seq![b] + y);
    if common.len() > 0 {
        let rest = common.skip(1);
        law_text_order_is_that_of_characters(rest, a, b, x, y);
        assert(p[0] == common[0] && q[0] == common[0]);
        assert(p.skip(1) =~= rest + seq![a] + x);
        assert(q.skip(1) =~= rest + seq![b] + y);
    } else {
        assert(p[0] == a && q[0] == b);
    }
}

/// The place of a text is its first among the names, and there is none where no name is the text.
pub proof fn law_place_is_the_first(names: Seq<Seq<char>>, t: Seq<char>, n: nat)
    requires
        n <= names.len(),
    ensures
        first_place(names, t, n) matches Some(i) ==> 0 <= i < n && names[i] == t && (forall|j: int|
            0 <= j < i ==> #[trigger] names[j] != t),
        first_place(names, t, n) is None ==> forall|j: int|
            0 <= j < n ==> #[trigger] names[j] != t,
    decreases n,
{
    if n > 0 {
        law_place_is_the_first(names, t, (n - 1) as nat);
    }
}

/// Tokens come in the ascending order of their names, and each name of the vocabulary that a token
/// has is there.
pub proof fn law_tokens_come_in_the_order_of_names(
    vocab: Seq<Seq<char>>,
    names: Seq<Seq<char>>,
    n: nat,
)
    requires
        n <= vocab.len(),
        ascending(vocab),
    ensures
        forall|i: int|
            0 <= i < places(vocab, names, n).len() ==> 0 <= #[trigger] places(vocab, names, n)[i]
                < names.len() && exists|k: int|
                0 <= k < n && names[places(vocab, names, n)[i]] == #[trigger] vocab[k],
        forall|i: int, j: int|
            0 <= i < j < places(vocab, names, n).len() ==> before(
                names[#[trigger] places(vocab, names, n)[i]],
                names[#[trigger] places(vocab, names, n)[j]],
            ),
        forall|k: int|
            0 <= k < n && names.contains(#[trigger] vocab[k]) ==> exists|i: int|
                0 <= i < places(vocab, names, n).len() && names[#[trigger] places(vocab, names, n)[i]]
                    == vocab[k],
    decreases n,
{
    if n > 0 {
        let m = (n - 1) as nat;
        law_tokens_come_in_the_order_of_names(vocab, names, m);
        law_place_is_the_first(names, vocab[n - 1], names.len());
        let rest = places(vocab, names, m);
        let all = places(vocab, names, n);
        assert forall|i: int| 0 <= i < rest.len() implies all[i] == #[trigger] rest[i] by {}
        assert forall|i: int| 0 <= i < all.len() implies 0 <= #[trigger] all[i] < names.len()
            && exists|k: int| 0 <= k < n && names[all[i]] == #[trigger] vocab[k] by {
            if i < rest.len() {
                assert(all[i] == rest[i]);
                let k = choose|k: int| 0 <= k < m && names[rest[i]] == #[trigger] vocab[k];
                assert(names[all[i]] == vocab[k]);
            } else {
                assert(names[all[i]] == vocab[n - 1]);
            }
        }
        assert forall|i: int, j: int| 0 <= i < j < all.len() implies before(
            names[#[trigger] all[i]],
            names[#[trigger] all[j]],
        ) by {
            assert(all[i] == rest[i]);
            if j < rest.len() {
                assert(all[j] == rest[j]);
            } else {
                let k = choose|k: int| 0 <= k < m && names[rest[i]] == #[trigger] vocab[k];
                assert(before(vocab[k], vocab[n - 1]));
            }
        }
        assert forall|k: int| 0 <= k < n && names.contains(#[trigger] vocab[k]) implies exists|
            i: int,
        | 0 <= i < all.len() && names[#[trigger] all[i]] == vocab[k] by {
            if k < m {
                let i = choose|i: int| 0 <= i < rest.len() && names[#[trigger] rest[i]] == vocab[k];
                assert(all[i] == rest[i]);
            } else {
                let j = choose|j: int| 0 <= j < names.len() && names[j] == vocab[k];
                assert(first_place(names, vocab[n - 1], names.len()) is Some);
                assert(names[all[all.len() - 1]] == vocab[k]);
            }
        }
    }
}

} // verus!
