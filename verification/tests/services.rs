//! Retrieval, routing, memories, the runner and small shared pieces.

use microgpt::double_bits::narrow;
use microgpt::float_bits::{is_at_most, is_below, order_key, round_signed};
use microgpt::percepta::runner::{
    BuildResult, ModelWeights, Runner, RunnerError, TransformerConfig,
};
use microgpt::pruners::delta_mem::multi::{AggregationStrategy, MultiDomainMemory, ReadPlan};
use microgpt::pruners::delta_mem::pruner::{CorrectionMode, MemorySteeredPruner, WriteGranularity};
use microgpt::pruners::delta_mem::state::{DeltaMemoryConfig, DeltaMemoryState};
use microgpt::rest::client::{embedding_to_query, RestClient, RestError, RetrievalResult};
use microgpt::rest::types::{
    last_parsed, AgentHints, DetokenizeResponse, HeaderFields, SearchRequest, SearchResponse,
    SearchResultItem, TokenizeResponse,
};
use microgpt::router::projector::{EmbeddingProjector, LinearProjector, TruncatePadProjector};
use microgpt::router::prompt_router::PromptRouter;
use microgpt::router::types::{DomainConfig, ExpertBundle, RouteDecision, RouterConfig};
use microgpt::speculative::context::SpeculativeContext;
use microgpt::wasm::state::ValidatorState;

fn bits(v: &[f32]) -> Vec<u32> {
    v.iter().map(|x| x.to_bits()).collect()
}

fn floats(v: &[u32]) -> Vec<f32> {
    v.iter().map(|&x| f32::from_bits(x)).collect()
}

fn strings(v: &[&str]) -> Vec<String> {
    v.iter().map(|s| s.to_string()).collect()
}

// Retrieval.

fn item(description: &str) -> SearchResultItem {
    SearchResultItem {
        title: "test".into(),
        link: "http://example.com".into(),
        description: description.into(),
        score: 0.95f64.to_bits(),
    }
}

#[test]
fn test_search_request_new() {
    let req = SearchRequest::new("hello world", 5);
    assert_eq!(req.query, "hello world");
    assert_eq!(req.limit, Some(5));
    assert!(req.db.is_none());
}

#[test]
fn test_extract_token_sequence_valid() {
    let result = item("some text tokens:1,2,3,4 more text");
    assert_eq!(result.extract_token_sequence(), Some(vec![1, 2, 3, 4]));
}

#[test]
fn test_extract_token_sequence_at_end() {
    let result = item("some text tokens:5,6,7");
    assert_eq!(result.extract_token_sequence(), Some(vec![5, 6, 7]));
}

#[test]
fn test_extract_token_sequence_none() {
    assert!(item("no tokens here").extract_token_sequence().is_none());
}

#[test]
fn test_extract_token_sequence_empty_after_marker() {
    assert!(item("tokens: more text").extract_token_sequence().is_none());
}

#[test]
fn test_extract_token_sequence_single_token() {
    assert_eq!(item("tokens:42").extract_token_sequence(), Some(vec![42]));
}

#[test]
fn test_agent_hints_default() {
    let hints = AgentHints::default();
    assert_eq!(f32::from_bits(hints.latency_sensitivity), 0.0);
    assert!(!hints.speculative_prefill);
    assert_eq!(hints.priority, 0);
}

#[test]
fn test_agent_hints_interactive() {
    let hints = AgentHints::interactive();
    assert_eq!(f32::from_bits(hints.latency_sensitivity), 1.0);
    assert!(hints.speculative_prefill);
    assert!(hints.priority > 0);
}

#[test]
fn test_agent_hints_background() {
    let hints = AgentHints::background();
    assert_eq!(f32::from_bits(hints.latency_sensitivity), 0.0);
    assert!(!hints.speculative_prefill);
    assert_eq!(hints.priority, 0);
}

fn hints_of(header: &str) -> AgentHints {
    let fields = HeaderFields::parse(header);
    let parsed: Vec<Option<u32>> =
        fields.latency.iter().map(|s| s.parse().ok().map(f32::to_bits)).collect();
    AgentHints::from_header(&fields, last_parsed(&parsed))
}

#[test]
fn the_last_latency_that_is_a_number_counts() {
    let hints = hints_of("latency=0.25;latency=0.75;latency=soon");
    assert_eq!(f32::from_bits(hints.latency_sensitivity), 0.75);
    assert_eq!(last_parsed(&vec![Some(1), None, Some(2), None]), Some(2));
    assert_eq!(last_parsed(&vec![None, None]), None);
    assert_eq!(last_parsed(&vec![]), None);
}

#[test]
fn test_agent_hints_from_header_full() {
    let hints = hints_of("latency=0.8;prefill=true;priority=64");
    assert!((f32::from_bits(hints.latency_sensitivity) - 0.8).abs() < 1e-6);
    assert!(hints.speculative_prefill);
    assert_eq!(hints.priority, 64);
}

#[test]
fn test_agent_hints_from_header_partial() {
    let hints = hints_of("latency=0.5");
    assert!((f32::from_bits(hints.latency_sensitivity) - 0.5).abs() < 1e-6);
    assert!(!hints.speculative_prefill);
    assert_eq!(hints.priority, 0);
}

#[test]
fn test_agent_hints_from_header_empty() {
    let hints = hints_of("");
    assert_eq!(f32::from_bits(hints.latency_sensitivity), 0.0);
}

#[test]
fn test_agent_hints_from_header_clamps_latency() {
    let hints = hints_of("latency=2.0");
    assert!((f32::from_bits(hints.latency_sensitivity) - 1.0).abs() < 1e-6);
}

#[test]
fn test_agent_hints_from_header_ignores_unknown() {
    let hints = hints_of("unknown=foo;latency=0.3");
    assert!((f32::from_bits(hints.latency_sensitivity) - 0.3).abs() < 1e-6);
}

#[test]
fn test_tokenize_response_count() {
    let resp = TokenizeResponse {
        token_ids: vec![1, 2, 3],
        tokens: strings(&["a", "b", "c"]),
        count: 3,
    };
    assert_eq!(resp.count, resp.token_ids.len());
}

#[test]
fn test_detokenize_response_text() {
    let resp = DetokenizeResponse { text: "hello world".into() };
    assert_eq!(resp.text, "hello world");
}

fn query_of(embedding: &[f32], max_tokens: usize) -> String {
    let mean = embedding.iter().sum::<f32>() / embedding.len() as f32;
    let variance =
        embedding.iter().map(|v| (v - mean).powi(2)).sum::<f32>() / embedding.len() as f32;
    let std_dev = variance.sqrt();
    let buckets: Vec<i32> = embedding
        .iter()
        .take(max_tokens)
        .map(|&v| ((v - mean) / std_dev.max(1e-6) * 3.0).round() as i32)
        .collect();
    embedding_to_query(embedding.len(), &buckets)
}

#[test]
fn test_embedding_to_query_non_empty() {
    let query = query_of(&[1.0, 2.0, 3.0, 4.0, 5.0], 3);
    assert!(!query.is_empty());
    assert!(query.contains('h'));
    assert_eq!(query, "h-4 h-2 h0");
}

#[test]
fn test_embedding_to_query_empty() {
    assert_eq!(query_of(&[], 10), "embedding");
}

#[test]
fn test_retrieval_result_default() {
    let result = RetrievalResult::default();
    assert!(result.is_empty());
    assert!(result.token_sequences.is_empty());
    assert!(result.scores.is_empty());
}

#[test]
fn test_retrieval_result_not_empty() {
    let result =
        RetrievalResult { token_sequences: vec![vec![1, 2, 3]], scores: bits(&[0.9]) };
    assert!(!result.is_empty());
}

#[test]
fn test_rest_client_new_trims_trailing_slash() {
    let client = RestClient::new("http://localhost:9090/");
    assert_eq!(client.base_url(), "http://localhost:9090");
}

#[test]
fn test_rest_error_display() {
    let err = RestError::Api("test error".into());
    assert_eq!(err.message(), "API error: test error");
}

#[test]
fn responses_become_sequences_with_scores() {
    let client = RestClient::new("http://localhost:9090");
    let ok = SearchResponse {
        success: true,
        data: Some(vec![item("tokens:1,2"), item("none"), item("tokens:7")]),
        debug: None,
    };
    let r = client.read_response(&ok).expect("result");
    assert_eq!(r.token_sequences, vec![vec![1, 2], vec![7]]);
    assert_eq!(r.scores.len(), 2);
    let failed = SearchResponse { success: false, data: None, debug: Some("{}".into()) };
    assert!(matches!(client.read_response(&failed), Err(RestError::Api(_))));
}

#[test]
fn ranked_responses_stay_ranked() {
    let scored = |text: &str, score: f64| SearchResultItem { score: score.to_bits(), ..item(text) };
    let response = SearchResponse {
        success: true,
        data: Some(vec![
            scored("tokens:4", 0.9),
            scored("nothing", 0.8),
            scored("tokens:2,3", 0.5),
            scored("tokens:1", -0.25),
        ]),
        debug: None,
    };
    let r = RestClient::new("http://localhost").read_response(&response).expect("result");
    assert_eq!(r.token_sequences, vec![vec![4], vec![2, 3], vec![1]]);
    let scores: Vec<f32> = r.scores.iter().map(|&s| f32::from_bits(s)).collect();
    assert_eq!(scores, vec![0.9, 0.5, -0.25]);
}

#[test]
fn scores_are_narrowed_to_single_precision() {
    let scores = [
        0.0,
        -0.0,
        1.0,
        0.95,
        -0.95,
        1.0 / 3.0,
        1.0 + 2f64.powi(-24),
        1.0 + 3.0 * 2f64.powi(-24),
        f32::MAX as f64,
        3.402_823_6e38,
        -1e300,
        1e-40,
        -1e-45,
        7e-46,
        1e-320,
        f32::MIN_POSITIVE as f64,
        1.175_494_3e-38,
        f64::INFINITY,
        f64::NEG_INFINITY,
    ];
    for x in scores {
        assert_eq!(narrow(x.to_bits()), (x as f32).to_bits(), "{x}");
    }
    assert!(f32::from_bits(narrow(f64::NAN.to_bits())).is_nan());
    let data = Some(vec![item("tokens:1")]);
    let response = SearchResponse { success: true, data, debug: None };
    let r = RestClient::new("http://localhost").read_response(&response).expect("result");
    assert_eq!(r.scores, vec![(0.95f64 as f32).to_bits()]);
}

// Projection.

fn project<P: EmbeddingProjector>(p: &P, embedding: &[f32], dim: usize) -> Vec<f32> {
    floats(&p.project(&bits(embedding), dim))
}

#[test]
fn test_truncate_768_to_64() {
    let embedding: Vec<f32> = (0..768).map(|i| i as f32 * 0.001).collect();
    let result = project(&TruncatePadProjector, &embedding, 64);
    assert_eq!(result.len(), 64);
    for i in 0..64 {
        assert!((result[i] - i as f32 * 0.001).abs() < f32::EPSILON);
    }
}

#[test]
fn test_pad_32_to_64() {
    let embedding: Vec<f32> = (0..32).map(|i| i as f32 * 0.01).collect();
    let result = project(&TruncatePadProjector, &embedding, 64);
    assert_eq!(result.len(), 64);
    for i in 0..32 {
        assert!((result[i] - i as f32 * 0.01).abs() < f32::EPSILON);
    }
    for i in 32..64 {
        assert!((result[i]).abs() < f32::EPSILON);
    }
}

#[test]
fn test_identity_64_to_64() {
    let embedding: Vec<f32> = (0..64).map(|i| i as f32).collect();
    let result = project(&TruncatePadProjector, &embedding, 64);
    assert_eq!(result.len(), 64);
    assert_eq!(result, embedding);
}

#[test]
fn test_empty_embedding_produces_zeros() {
    let result = project(&TruncatePadProjector, &[], 64);
    assert_eq!(result.len(), 64);
    assert!(result.iter().all(|&v| v == 0.0));
}

#[test]
fn test_empty_embedding_zero_target_dim() {
    let result = project(&TruncatePadProjector, &[1.0, 2.0, 3.0], 0);
    assert!(result.is_empty());
}

#[test]
fn test_truncate_preserves_sign() {
    let embedding = vec![-1.5, 2.3, -0.7, 0.0, 4.1, -3.2, 1.8, -0.3];
    let result = project(&TruncatePadProjector, &embedding, 4);
    assert_eq!(result, vec![-1.5, 2.3, -0.7, 0.0]);
}

#[test]
fn test_pad_preserves_sign() {
    let result = project(&TruncatePadProjector, &[-1.5, 2.3], 5);
    assert_eq!(result, vec![-1.5, 2.3, 0.0, 0.0, 0.0]);
}

#[test]
fn test_linear_projector_falls_back_to_truncate_pad() {
    let result = project(&LinearProjector {}, &[1.0, 2.0, 3.0], 2);
    assert_eq!(result, vec![1.0, 2.0]);
}

// Memories. A write adds the outer product of value and key; a read multiplies by the query.

fn written(m: Option<&DeltaMemoryState>, rank: usize, key: &[f32], val: &[f32]) -> Vec<u32> {
    let mut s = match m {
        Some(m) => floats(&m.state),
        None => vec![0.0; rank * rank],
    };
    for r in 0..rank {
        for c in 0..rank {
            s[r * rank + c] += val[r] * key[c];
        }
    }
    bits(&s)
}

fn read(m: &DeltaMemoryState, query: &[f32]) -> Vec<f32> {
    let rank = m.config.rank;
    let s = floats(&m.state);
    (0..rank).map(|r| (0..rank).map(|c| s[r * rank + c] * query[c]).sum()).collect()
}

fn write_domain(mem: &mut MultiDomainMemory, domain: &str, key: &[f32], val: &[f32]) {
    let matrix = written(mem.read_domain(domain), mem.config().rank, key, val);
    assert!(mem.write_domain(domain, matrix));
}

fn unit(rank: usize, at: usize) -> Vec<f32> {
    (0..rank).map(|i| if i == at { 1.0 } else { 0.0 }).collect()
}

#[test]
fn test_empty_memory() {
    let mem = MultiDomainMemory::new(DeltaMemoryConfig::default());
    assert_eq!(mem.domain_count(), 0);
    assert!(mem.read_domain("unknown").is_none());
}

#[test]
fn test_write_creates_domain() {
    let mut mem = MultiDomainMemory::new(DeltaMemoryConfig::default());
    write_domain(&mut mem, "coding", &unit(8, 0), &unit(8, 1));
    assert_eq!(mem.domain_count(), 1);
    assert!(mem.domains().contains(&"coding".to_string()));
}

#[test]
fn test_read_write_roundtrip() {
    let mut mem = MultiDomainMemory::new(DeltaMemoryConfig::default());
    write_domain(&mut mem, "coding", &unit(8, 0), &unit(8, 1));
    let readout = read(mem.read_domain("coding").expect("memory"), &unit(8, 0));
    assert!(readout.iter().any(|&x| x.abs() > 0.0));
}

#[test]
fn test_cross_domain_isolation() {
    let mut mem = MultiDomainMemory::new(DeltaMemoryConfig { rank: 4 });
    write_domain(&mut mem, "coding", &unit(4, 0), &unit(4, 1));
    assert!(mem.read_domain("math").is_none());
    mem.ensure_domain("math");
    let math = read(mem.read_domain("math").expect("memory"), &unit(4, 0));
    assert!(math.iter().all(|&x| x.abs() < 1e-6), "Math domain should start at zero");
}

#[test]
fn test_snapshot_all() {
    let mut mem = MultiDomainMemory::new(DeltaMemoryConfig { rank: 4 });
    write_domain(&mut mem, "a", &unit(4, 0), &unit(4, 1));
    write_domain(&mut mem, "b", &unit(4, 0), &unit(4, 1));
    let snapshots = mem.snapshot_all();
    assert_eq!(snapshots.len(), 2);
    assert!(snapshots.iter().any(|s| s.domain == "a"));
    assert!(snapshots.iter().any(|s| s.domain == "b"));
    assert_eq!(snapshots[0].snapshot.update_count, 1);
    assert_eq!(f32::from_bits(snapshots[0].snapshot.state[4]), 1.0);
}

#[test]
fn test_reset_all() {
    let mut mem = MultiDomainMemory::new(DeltaMemoryConfig { rank: 4 });
    write_domain(&mut mem, "a", &unit(4, 0), &unit(4, 1));
    write_domain(&mut mem, "b", &unit(4, 0), &unit(4, 1));
    mem.reset_all();
    let readout = read(mem.read_domain("a").expect("memory"), &unit(4, 0));
    assert!(readout.iter().all(|&x| x.abs() < 1e-6));
    assert_eq!(mem.domain_count(), 2);
}

#[test]
fn reset_of_one_domain_leaves_the_others() {
    let mut mem = MultiDomainMemory::new(DeltaMemoryConfig { rank: 2 });
    write_domain(&mut mem, "a", &unit(2, 0), &unit(2, 1));
    write_domain(&mut mem, "b", &unit(2, 0), &unit(2, 1));
    mem.reset_domain("a");
    mem.reset_domain("none");
    assert_eq!(mem.read_domain("a").unwrap().update_count(), 0);
    assert_eq!(mem.read_domain("b").unwrap().update_count(), 1);
    assert!(!mem.write_domain("b", vec![0; 3]));
    assert_eq!(mem.read_domain("b").unwrap().update_count(), 1);
}

#[test]
fn test_read_aggregated_routed_only() {
    let mut mem = MultiDomainMemory::new(DeltaMemoryConfig { rank: 4 });
    write_domain(&mut mem, "coding", &unit(4, 0), &unit(4, 1));
    mem.ensure_domain("math");
    let plan = mem.read_aggregated("coding", AggregationStrategy::RoutedOnly);
    assert!(matches!(plan, Some(ReadPlan::Routed(0))));
    match mem.read_aggregated("math", AggregationStrategy::BanditWeighted) {
        Some(ReadPlan::Weighted(w)) => assert_eq!(w, vec![1, 0]),
        other => panic!("expected weights, got {other:?}"),
    }
    assert!(mem.read_aggregated("none", AggregationStrategy::BanditWeighted).is_none());
}

fn steered(g: WriteGranularity) -> MemorySteeredPruner<(), u32, u32> {
    MemorySteeredPruner::new(
        (),
        DeltaMemoryConfig::default(),
        2.0f32.to_bits(),
        CorrectionMode::OutputSide,
        g,
    )
}

fn observe(p: &mut MemorySteeredPruner<(), u32, u32>, ctx: u32, outcome: u32) {
    if p.observe(ctx, outcome).is_some() {
        let matrix = written(Some(&p.memory), 8, &unit(8, 0), &unit(8, 1));
        assert!(p.memory.store(matrix));
    }
}

#[test]
fn test_observe_token_writes_to_memory() {
    let mut pruner = steered(WriteGranularity::Token);
    observe(&mut pruner, 1, 2);
    assert_eq!(pruner.memory().update_count(), 1);
}

#[test]
fn test_observe_segment_defers_write() {
    let mut pruner = steered(WriteGranularity::Segment);
    observe(&mut pruner, 1, 2);
    assert_eq!(pruner.pending_count(), 1);
    assert_eq!(pruner.memory().update_count(), 0);
    assert_eq!(pruner.flush_segment(), Some(vec![(1, 2)]));
    let matrix = written(Some(&pruner.memory), 8, &unit(8, 0), &unit(8, 1));
    assert!(pruner.memory.store(matrix));
    assert_eq!(pruner.pending_count(), 0);
    assert_eq!(pruner.memory().update_count(), 1);
    assert_eq!(pruner.flush_segment(), None);
}

#[test]
fn test_snapshot_restore() {
    let mut pruner = steered(WriteGranularity::Token);
    observe(&mut pruner, 1, 0);
    let snap = pruner.snapshot_memory();
    assert_eq!(snap.update_count, 1);
    assert_eq!(snap.state, pruner.memory().snapshot().state);
    pruner.memory_mut().reset();
    assert_eq!(pruner.snapshot_memory().update_count, 0);
    *pruner.inner_mut() = ();
}

#[test]
fn test_reset_clears_state() {
    let mut pruner = steered(WriteGranularity::Token).with_seeds(7, 8);
    assert_eq!((pruner.seeds.key, pruner.seeds.value), (7, 8));
    observe(&mut pruner, 1, 0);
    assert_eq!(pruner.memory().update_count(), 1);
    pruner.reset();
    assert_eq!(pruner.memory().update_count(), 0);
    assert_eq!(pruner.mode(), CorrectionMode::OutputSide);
    assert_eq!(pruner.write_granularity(), WriteGranularity::Token);
}

// Runner.

#[test]
fn test_runner_compile_not_implemented() {
    match Runner::compile("int main() { return 0; }").unwrap_err() {
        RunnerError::NotImplemented(msg) => assert!(msg.contains("clang")),
        other => panic!("expected NotImplemented, got {other:?}"),
    }
}

/// A build whose schedule is its largest number of layers, and whose weights add the graph to it.
fn small_build(
    max_layers: Option<usize>,
) -> Result<BuildResult<usize, usize, usize, char>, RunnerError> {
    Runner::build_from_graph(
        40,
        vec![("in".to_string(), 'i')],
        vec![("halt".to_string(), 'h')],
        strings(&["halt", "in"]),
        max_layers,
        |graph: &usize, limit| match limit {
            Some(0) => Err(format!("no layers for {graph}")),
            Some(n) => Ok(n),
            None => Ok(1),
        },
        |graph: &usize, schedule: &usize| ModelWeights {
            weights: *graph + *schedule,
            d_model: 4,
            n_heads: 2,
            n_layers: *schedule,
            d_ffn: 8,
        },
    )
}

#[test]
fn builds_keep_what_they_were_built_from() {
    let b = small_build(Some(3)).expect("build");
    assert_eq!((b.weights, b.schedule, b.graph), (43, 3, 40));
    let c = &b.config;
    assert_eq!((c.d_model, c.n_heads, c.n_layers, c.d_ffn), (4, 2, 3, 8));
    assert_eq!((c.stop_token.as_str(), c.max_gen), ("halt", 50000));
    assert_eq!(b.vocab, strings(&["halt", "in"]));
    assert_eq!(b.input_tokens, vec![("in".to_string(), 'i')]);
    assert_eq!(b.output_tokens, vec![("halt".to_string(), 'h')]);
    let failed = small_build(Some(0)).unwrap_err();
    assert_eq!(failed.message(), "schedule error: no layers for 40");
}

#[test]
fn builds_assemble_tokens_by_name() {
    let tokens = |list: &[(&str, char)]| -> Vec<(String, char)> {
        list.iter().map(|&(name, e)| (name.to_string(), e)).collect()
    };
    let b = Runner::build_universal(
        Some(2),
        || (tokens(&[("c", 'c'), ("a", 'a')]), tokens(&[("halt", 'h'), ("c", 'C'), ("b", 'B')])),
        |inputs: &Vec<(String, char)>, order: &Vec<usize>, outputs: &Vec<(String, char)>, last| {
            let ins: String = order.iter().map(|&i| inputs[i].1).collect();
            let outs: String = last.iter().map(|&i: &usize| outputs[i].1).collect();
            format!("{ins}>{outs}")
        },
        |_graph: &String, limit| Ok(limit.unwrap_or(1)),
        |graph: &String, schedule: &usize| ModelWeights {
            weights: graph.len(),
            d_model: 4,
            n_heads: 2,
            n_layers: *schedule,
            d_ffn: 8,
        },
    )
    .expect("build");
    assert_eq!(b.vocab, strings(&["a", "b", "c", "halt"]));
    assert_eq!(b.graph, "ac>BCh");
    assert_eq!((b.weights, b.schedule, b.config.n_layers), (6, 2, 2));
    assert_eq!(Runner::token_order(&b.vocab, &b.output_tokens), vec![2, 1, 0]);
}

/// What a generator is given.
fn handed(
    weights: &usize,
    config: &TransformerConfig,
    vocab: &Vec<String>,
    prefix: &Vec<String>,
    max_tokens: usize,
) -> (usize, usize, Vec<String>, Vec<String>, usize) {
    (*weights, config.n_layers, vocab.clone(), prefix.clone(), max_tokens)
}

#[test]
fn generators_are_given_the_whole_model() {
    let b = small_build(Some(2)).expect("build");
    let prefix = strings(&["in"]);
    let expected = (42, 2, strings(&["halt", "in"]), strings(&["in"]), 7);
    assert_eq!(Runner::run(&b, &prefix, 7, handed).unwrap(), expected);
    let direct = Runner::run_with_weights(&b.weights, &b.config, &b.vocab, &prefix, 7, handed);
    assert_eq!(direct.unwrap(), expected);
    let piped = Runner::full_pipeline(&prefix, Some(2), 7, small_build, handed);
    assert_eq!(piped.unwrap(), expected);
}

#[test]
fn test_runner_specialize_not_implemented() {
    let build = small_build(None).expect("build");
    match Runner::specialize(&build).unwrap_err() {
        RunnerError::NotImplemented(msg) => assert!(msg.contains("Futamura")),
        other => panic!("expected NotImplemented, got {other:?}"),
    }
}

#[test]
fn test_runner_run_empty_prefix_fails() {
    let b = small_build(None).expect("build");
    let result = Runner::run_with_weights(&b.weights, &b.config, &b.vocab, &vec![], 100, handed);
    match result.unwrap_err() {
        RunnerError::InvalidPrefix(msg) => assert!(msg.contains("empty")),
        other => panic!("expected InvalidPrefix, got {other:?}"),
    }
}

#[test]
fn test_runner_error_display() {
    let err = RunnerError::CompileError("test error".into());
    assert_eq!(err.message(), "compile error: test error");
    let err = RunnerError::NotImplemented("feature".into());
    assert_eq!(err.message(), "not implemented: feature");
}

#[test]
fn runner_error_prefixes() {
    let text = |e: RunnerError| e.message();
    assert_eq!(text(RunnerError::ScheduleError("a".into())), "schedule error: a");
    assert_eq!(text(RunnerError::EvalError("b".into())), "eval error: b");
    assert_eq!(text(RunnerError::WeightError("c".into())), "weight error: c");
    assert_eq!(text(RunnerError::InvalidPrefix("d".into())), "invalid prefix: d");
}

#[test]
fn test_runner_full_evaluate_with_simple_graph() {
    let prefix = strings(&["zero"]);
    let result = Runner::evaluate(&prefix, 100, |p: &Vec<String>, n| {
        assert_eq!(n, 100);
        let mut out = p.clone();
        out.push("halt".to_string());
        out
    });
    let predicted = result.unwrap();
    assert_eq!(predicted[0], "zero");
    assert_eq!(predicted.len(), 2);
}

#[test]
fn test_runner_evaluate_with_output() {
    let prefix = strings(&["zero"]);
    let result = Runner::evaluate_with_output(&prefix, 100, |p: &Vec<String>, _n| {
        (p.clone(), "x".to_string())
    });
    assert!(result.is_ok());
}

#[test]
fn evaluators_get_the_prefix_and_the_limit() {
    let prefix = strings(&["a", "b"]);
    let echo = |p: &Vec<String>, n: usize| {
        let mut out = p.clone();
        out.push(n.to_string());
        out
    };
    let expected = strings(&["a", "b", "7"]);
    assert_eq!(Runner::evaluate_from_prefix(&prefix, 7, echo).unwrap(), expected);
    assert_eq!(Runner::full_evaluate(&prefix, 7, echo).unwrap(), expected);
    let output = |p: &Vec<String>, n: usize| (p.clone(), format!("{n}"));
    let (tokens, text) = Runner::evaluate_with_output(&prefix, 7, output).unwrap();
    assert_eq!(tokens, prefix);
    assert_eq!(text, "7");
}

#[test]
fn vocabulary_is_the_sorted_union() {
    let names = Runner::vocabulary(
        &strings(&["zero", "halt", "b"]),
        &strings(&["halt", "a", "bb", "zero", "", "Z", "é"]),
    );
    assert_eq!(names, strings(&["", "Z", "a", "b", "bb", "halt", "zero", "é"]));
}

#[test]
fn full_pipeline_builds_before_it_looks_at_the_prefix() {
    let failed = Runner::full_pipeline(&vec![], Some(0), 10, small_build, handed);
    assert_eq!(failed.unwrap_err().message(), "schedule error: no layers for 40");
    let empty = Runner::full_pipeline(&vec![], None, 10, small_build, handed);
    assert_eq!(
        empty.unwrap_err().message(),
        "invalid prefix: token prefix must not be empty"
    );
}

// Validator metadata.

#[test]
fn test_placeholder_state() {
    let state = ValidatorState::placeholder();
    assert_eq!(state.name, "unknown");
    assert_eq!(state.version, (0, 0, 0));
}

#[test]
fn test_new_state() {
    let state = ValidatorState::new(String::from("test_validator"), (1, 2, 3));
    assert_eq!(state.name, "test_validator");
    assert_eq!(state.version, (1, 2, 3));
}

#[test]
fn test_default_is_placeholder() {
    let default = ValidatorState::default();
    let placeholder = ValidatorState::placeholder();
    assert_eq!(default.name, placeholder.name);
    assert_eq!(default.version, placeholder.version);
}

// Bit patterns.

#[test]
fn order_keys_order_as_numbers_do() {
    let values = [
        f32::NEG_INFINITY, -3.5, -1.0, -1e-40, -0.0, 0.0, 1e-40, 0.25, 1.0, 3.5, f32::MAX,
        f32::INFINITY,
    ];
    for a in values {
        for b in values {
            assert_eq!(order_key(a.to_bits()) < order_key(b.to_bits()), a < b);
            assert_eq!(is_below(a.to_bits(), b.to_bits()), a < b);
            assert_eq!(is_at_most(a.to_bits(), b.to_bits()), a <= b);
        }
        assert!(!is_below(a.to_bits(), f32::NAN.to_bits()));
        assert!(!is_at_most(f32::NAN.to_bits(), a.to_bits()));
    }
}

#[test]
fn rounding_to_single_precision() {
    for n in [0i128, 1, -1, 0xFF_FFFF, 0x100_0001, 0x100_0003, -0x100_0003, 0x7FFF_FFFF_FFFF] {
        assert_eq!(round_signed(n) as f64, (n as f32) as f64, "n = {n}");
    }
}

#[test]
fn stored_steps_read_back() {
    let mut c = SpeculativeContext::new(2, 3);
    let row = bits(&[0.1, 0.2, 0.7]);
    assert!(c.set_marginal(1, &row));
    c.steps_populated = 2;
    assert_eq!(c.marginal_slice(1, 3), row);
    assert_eq!(floats(&c.marginal_slice(0, 3)), vec![0.0, 0.0, 0.0]);
    assert!(c.set_p_dist(2, &row));
    assert_eq!(c.p_dist_slice(2, 3), row);
    assert_eq!(c.marginals_view(3), vec![vec![0; 3], row.clone()]);
    assert_eq!(c.sampled_tokens(), vec![0, 0]);
    c.reset();
    assert!(c.marginal_slice(1, 3).is_empty());
    assert!(c.marginals_view(3).is_empty());
    assert!(!c.set_marginal(2, &row));
}

struct LongestPrompt;

impl PromptRouter for LongestPrompt {
    fn route(&self, prompt: &str) -> RouteDecision {
        let domain = if prompt.len() > 8 { "general" } else { "sudoku" };
        RouteDecision {
            domain: domain.to_string(),
            confidence: 1.0f32.to_bits(),
            lora_path: None,
            pruner_path: None,
        }
    }
}

#[test]
fn routers_pick_an_expert() {
    let config = RouterConfig {
        domain: vec![DomainConfig {
            name: "sudoku".into(),
            keywords: strings(&["grid", "digit"]),
            pruner: None,
            lora: Some("sudoku.bin".into()),
            native_pruner: Some("sudoku".into()),
        }],
    };
    let decision = LongestPrompt.route("a grid");
    let chosen = config.domain.iter().find(|d| d.name == decision.domain).expect("domain");
    let bundle =
        ExpertBundle { domain: chosen.name.clone(), pruner: 7u8, lora_path: chosen.lora.clone() };
    assert_eq!(bundle.domain, "sudoku");
    assert_eq!(bundle.lora_path.as_deref(), Some("sudoku.bin"));
    assert_eq!(LongestPrompt.route("a long prompt").domain, "general");
}
