//! Training data, adapters and the plans that are recorded for the device.

use microgpt::gpu::backward::{GpuBackwardPass, GradId, GradStep};
use microgpt::gpu::dataloader::{batch_rows, DataLoader, DataLoaderError, TrainingSample};
use microgpt::gpu::forward::{GpuActivationBuffers, GpuForwardPass};
use microgpt::gpu::kernels::{
    dispatch_1d, dispatch_2d, dispatch_count, GpuPipelines, Kernel, Shader,
};
use microgpt::gpu::lora::{
    assemble_lora, encode_payload, export_lora, load_lora, parse_lora, GpuLoraAdapter,
    GpuLoraBuffers, LoraError, LoraTarget, TARGET_COUNT,
};
use microgpt::gpu::loss::GpuLoss;
use microgpt::gpu::optimizer::{AdamWConfig, AdamWOptimizer, LrRule};
use microgpt::gpu::plan::{BufferId, Params, Step};
use microgpt::gpu::training_loop::{
    final_name, toy_samples, RunAction, Trainer, TrainingConfig, TrainingError, TrainingRun,
};
use microgpt::gpu::weights::{GpuWeightBuffers, WeightPart};
use microgpt::types::{Config, Rng};

// Data.

fn sample(tokens: &[usize]) -> TrainingSample {
    TrainingSample { tokens: tokens.to_vec() }
}

#[test]
fn test_dataloader_from_samples() {
    let samples = vec![sample(&[1, 2, 3, 4, 5]), sample(&[6, 7, 8]), sample(&[10, 11, 12, 13])];
    let dl = DataLoader::from_samples(samples, 2, 4, 0).expect("create dataloader");
    assert_eq!(dl.len(), 3);
    assert_eq!(dl.num_batches(), 1);
}

#[test]
fn batches_are_cut_into_rows() {
    assert_eq!(
        batch_rows(&[1, 2, 3, 4, 5, 6], 3),
        vec![vec![1usize, 2, 3], vec![4, 5, 6]]
    );
    assert_eq!(batch_rows(&[1, 2, 3, 4], 3), vec![vec![1usize, 2, 3], vec![4]]);
    assert!(batch_rows(&[], 3).is_empty());
    let samples: Vec<TrainingSample> =
        (0..3).map(|s| TrainingSample { tokens: (s..s + 5).collect() }).collect();
    let loader = DataLoader::from_samples(samples, 3, 4, 9).expect("create dataloader");
    let (inputs, targets) = loader.get_batch(0).expect("one batch");
    assert_eq!(
        batch_rows(&inputs, 4),
        vec![vec![0usize, 1, 2, 3], vec![1, 2, 3, 4], vec![2, 3, 4, 5]]
    );
    assert_eq!(
        batch_rows(&targets, 4),
        vec![vec![1usize, 2, 3, 4], vec![2, 3, 4, 5], vec![3, 4, 5, 6]]
    );
}

#[test]
fn test_batches_next_token_prediction() {
    let samples = vec![sample(&[1, 2, 3, 4, 5]), sample(&[6, 7, 8, 9, 10])];
    let mut dl = DataLoader::from_samples(samples, 2, 4, 0).expect("create dataloader");
    dl.rng = Rng::new(0);
    let batches = dl.batches();
    assert_eq!(batches.len(), 1);
    let (input_ids, target_ids) = &batches[0];
    assert_eq!(input_ids.len(), 8);
    assert_eq!(target_ids.len(), 8);
}

#[test]
fn test_batch_padding() {
    let samples = vec![sample(&[1, 2])];
    let mut dl = DataLoader::from_samples(samples, 1, 4, 99).expect("create dataloader");
    let batches = dl.batches();
    assert_eq!(batches.len(), 1);
    let (input_ids, target_ids) = &batches[0];
    assert_eq!(input_ids.len(), 4);
    assert_eq!(target_ids.len(), 4);
    assert_eq!(input_ids[0], 1);
    assert_eq!(target_ids[0], 2);
    assert_eq!(input_ids[1], 99);
    assert_eq!(target_ids[1], 99);
    assert_eq!(input_ids[2], 99);
    assert_eq!(input_ids[3], 99);
}

#[test]
fn test_get_batch_deterministic() {
    let samples = vec![sample(&[1, 2, 3]), sample(&[4, 5, 6])];
    let dl = DataLoader::from_samples(samples, 2, 2, 0).expect("create dataloader");
    let (input_ids, target_ids) = dl.get_batch(0).expect("batch");
    assert_eq!(input_ids[0], 1);
    assert_eq!(target_ids[0], 2);
    assert_eq!(input_ids[1], 2);
    assert_eq!(target_ids[1], 3);
    assert_eq!(input_ids[2], 4);
    assert_eq!(target_ids[2], 5);
    assert_eq!(input_ids[3], 5);
    assert_eq!(target_ids[3], 6);
}

#[test]
fn test_empty_samples_error() {
    let result = DataLoader::from_samples(vec![], 1, 4, 0);
    assert!(result.is_err());
    let error = result.err().unwrap();
    assert!(matches!(error, DataLoaderError::NoSamples));
    assert_eq!(error.message(), "No training samples found");
}

#[test]
fn test_single_token_sample() {
    let samples = vec![sample(&[42])];
    let mut dl = DataLoader::from_samples(samples, 1, 4, 0).expect("create dataloader");
    let batches = dl.batches();
    assert_eq!(batches.len(), 1);
    let (input_ids, _) = &batches[0];
    assert!(input_ids.iter().all(|&x| x == 0));
}

#[test]
fn test_truncation_to_seq_len() {
    let samples = vec![sample(&[1, 2, 3, 4, 5, 6, 7, 8, 9, 10])];
    let mut dl = DataLoader::from_samples(samples, 1, 3, 0).expect("create dataloader");
    let batches = dl.batches();
    let (input_ids, target_ids) = &batches[0];
    assert_eq!(input_ids.len(), 3);
    assert_eq!(target_ids.len(), 3);
    assert_eq!(input_ids[0], 1);
    assert_eq!(target_ids[0], 2);
    assert_eq!(input_ids[1], 2);
    assert_eq!(target_ids[1], 3);
    assert_eq!(input_ids[2], 3);
    assert_eq!(target_ids[2], 4);
}

#[test]
fn shuffle_is_fisher_yates() {
    let samples: Vec<TrainingSample> = (0..20).map(|i| sample(&[i])).collect();
    let mut dl = DataLoader::from_samples(samples, 4, 4, 0).expect("create dataloader");
    dl.shuffle();
    let mut expected: Vec<usize> = (0..20).collect();
    let mut rng = Rng::new(42);
    for i in (1..20).rev() {
        let j = (rng.next() as usize) % (i + 1);
        expected.swap(i, j);
    }
    let got: Vec<usize> = dl.samples.iter().map(|s| s.tokens[0]).collect();
    assert_eq!(got, expected);
    assert_eq!(dl.rng, rng);
    let mut sorted = got.clone();
    sorted.sort();
    assert_eq!(sorted, (0..20).collect::<Vec<usize>>());
    assert_ne!(got, sorted);
}

#[test]
fn last_batch_holds_the_rest() {
    let samples: Vec<TrainingSample> = (0..5).map(|i| sample(&[i, i + 1])).collect();
    let mut dl = DataLoader::from_samples(samples, 2, 3, 0).expect("create dataloader");
    let batches = dl.batches();
    let sizes: Vec<usize> = batches.iter().map(|b| b.0.len()).collect();
    assert_eq!(sizes, vec![6, 6, 3]);
    assert_eq!(dl.num_batches(), 2);
    assert!(dl.get_batch(3).is_some());
    assert!(dl.get_batch(4).is_none());
    assert!(dl.get_batch(usize::MAX).is_none());
    assert!(!dl.is_empty());
}

// Kernels.

#[test]
fn workgroups_cover_their_items() {
    assert_eq!(dispatch_count(0, 64), 0);
    assert_eq!(dispatch_count(1, 64), 1);
    assert_eq!(dispatch_count(64, 64), 1);
    assert_eq!(dispatch_count(65, 64), 2);
    assert_eq!(dispatch_count(usize::MAX, 1), u32::MAX);
    assert_eq!(dispatch_1d(300, 256), [2, 1, 1]);
    assert_eq!(dispatch_2d(17, 33, 16, 16), [2, 3, 1]);
}

#[test]
fn pipelines_name_their_shaders() {
    let p = GpuPipelines::new();
    assert_eq!(p.kernels.len(), 16);
    assert_eq!(Kernel::Relu.shader(), Shader::Elementwise);
    assert_eq!(Kernel::Scale.shader(), Shader::Scale);
    assert_eq!(Kernel::Matmul.entry_point(), "matmul_tiled");
    assert_eq!(Kernel::Matmul.label(), "matmul");
    assert_eq!(Kernel::AdamwStep.entry_point(), "adamw_step");
    assert_eq!(Kernel::AdamwStep.label(), "adamw");
    assert_eq!(Kernel::CrossEntropyPerSample.label(), "ce_per_sample");
    let mut entries: Vec<&str> = p.kernels.iter().map(|k| k.entry_point()).collect();
    entries.sort();
    entries.dedup();
    assert_eq!(entries.len(), 16);
}

// Adapters.

fn make_lora(config: &Config, rank: usize, alpha: f32) -> GpuLoraBuffers {
    let mut rng = Rng::new(42);
    let a: Vec<Vec<u32>> = (0..config.n_layer * TARGET_COUNT)
        .map(|i| {
            let (in_dim, _) = LoraTarget::all()[i % TARGET_COUNT].dims(config);
            (0..rank * in_dim).map(|_| f32::from_bits(rng.uniform()).to_bits()).collect()
        })
        .collect();
    GpuLoraBuffers::new(config, rank, alpha.to_bits(), &a)
}

#[test]
fn test_lora_target_dims() {
    let config = Config::micro();
    let (q_in, q_out) = LoraTarget::Q.dims(&config);
    assert_eq!(q_in, config.n_embd);
    assert_eq!(q_out, config.n_embd);
    let (k_in, k_out) = LoraTarget::K.dims(&config);
    assert_eq!(k_in, config.n_embd);
    let kv_dim = config.n_kv_head * config.head_dim;
    assert_eq!(k_out, kv_dim);
    let (mlp1_in, mlp1_out) = LoraTarget::Mlp1.dims(&config);
    assert_eq!(mlp1_in, config.n_embd);
    assert_eq!(mlp1_out, config.mlp_hidden);
    assert_eq!(LoraTarget::Mlp2.name(), "mlp2");
}

#[test]
fn test_adapter_param_count() {
    let adapter = GpuLoraAdapter::new(4, 16, 16, vec![0; 64]);
    assert_eq!(adapter.param_count(), 128);
    assert!(adapter.b.iter().all(|&w| w == 0));
    assert_eq!(adapter.b.len(), 64);
}

#[test]
fn test_lora_buffers_creation() {
    let config = Config::micro();
    let lora = make_lora(&config, 4, 8.0);
    assert_eq!(lora.adapters.len(), config.n_layer * TARGET_COUNT);
    assert_eq!(lora.rank, 4);
    assert_eq!(lora.alpha, 8.0f32.to_bits());
    assert!(lora.total_param_count() > 0);
    assert_eq!(lora.get_adapter(0, LoraTarget::Mlp2).in_dim, 64);
}

#[test]
fn adapters_are_reached_by_layer_and_target() {
    let config = Config { n_layer: 2, ..Config::micro() };
    let mut lora = make_lora(&config, 2, 4.0);
    lora.get_adapter_mut(1, LoraTarget::K).b[0] = 7;
    assert_eq!(lora.adapters[7].b[0], 7);
    assert_eq!(lora.get_adapter(1, LoraTarget::K).b[0], 7);
    assert_eq!(lora.get_adapter(0, LoraTarget::K).b[0], 0);
}

#[test]
fn test_export_import_roundtrip() {
    let config = Config::micro();
    let alpha = 8.0f32;
    let lora = make_lora(&config, 4, alpha);
    let file = export_lora(&lora);
    let loaded = load_lora(&file, alpha.to_bits()).expect("load");
    assert_eq!(loaded.adapters.len(), lora.adapters.len());
    assert_eq!(loaded.rank, lora.rank);
    for (a, b) in loaded.adapters.iter().zip(lora.adapters.iter()) {
        assert_eq!(a.a, b.a);
        assert_eq!(a.b, b.b);
        assert_eq!((a.in_dim, a.out_dim, a.rank), (b.in_dim, b.out_dim, b.rank));
    }
}

#[test]
fn test_adapter_index() {
    assert_eq!(GpuLoraBuffers::adapter_index(0, LoraTarget::Q), 0);
    assert_eq!(GpuLoraBuffers::adapter_index(0, LoraTarget::Mlp2), 5);
    assert_eq!(GpuLoraBuffers::adapter_index(1, LoraTarget::Q), 6);
    assert_eq!(GpuLoraBuffers::adapter_index(2, LoraTarget::K), 13);
}

#[test]
fn exported_file_layout() {
    let lora = GpuLoraBuffers {
        adapters: vec![GpuLoraAdapter { a: vec![0x0403_0201], b: vec![0x0807_0605], in_dim: 1, out_dim: 1, rank: 1 }],
        rank: 1,
        alpha: 2.0f32.to_bits(),
    };
    let file = export_lora(&lora);
    assert_eq!(&file[0..4], b"LORA");
    assert_eq!(&file[4..8], &[1, 0, 0, 0]);
    let payload = &file[40..];
    assert_eq!(&file[8..40], blake3::hash(payload).as_bytes());
    assert_eq!(&payload[0..12], &[1, 0, 0, 0, 1, 0, 0, 0, 0, 0, 0, 0x40]);
    assert_eq!(&payload[12..28], &[1, 0, 0, 0, 1, 0, 0, 0, 1, 2, 3, 4, 5, 6, 7, 8]);
    assert_eq!(payload.len(), 28);
    assert_eq!(assemble_lora(&encode_payload(&lora), &file[8..40].to_vec()), file);
    let kept = load_lora(&file, 0).expect("load");
    assert_eq!(kept.alpha, 2.0f32.to_bits());
    let overridden = load_lora(&file, 5.0f32.to_bits()).expect("load");
    assert_eq!(overridden.alpha, 5.0f32.to_bits());
}

#[test]
fn load_refuses_broken_files() {
    let lora = make_lora(&Config::micro(), 2, 4.0);
    let file = export_lora(&lora);
    let error = |f: &[u8]| load_lora(f, 0).err().expect("refused");
    assert_eq!(error(&file[..40]), LoraError::TooSmall);
    assert_eq!(error(&file[..40]).message(), "File too small for lora header");
    let mut magic = file.clone();
    magic[0] = b'X';
    assert_eq!(error(&magic), LoraError::BadMagic);
    assert_eq!(error(&magic).message(), "Invalid lora magic bytes");
    let mut version = file.clone();
    version[4] = 9;
    assert_eq!(error(&version), LoraError::UnsupportedVersion(9));
    assert_eq!(error(&version).message(), "Unsupported lora version: 9");
    let mut changed = file.clone();
    let last = changed.len() - 1;
    changed[last] ^= 1;
    assert_eq!(error(&changed), LoraError::ChecksumMismatch);
    assert_eq!(error(&changed).message(), "LoRA file checksum mismatch");
    let reseal = |payload: &[u8]| {
        let sum = blake3::hash(payload).as_bytes().to_vec();
        assemble_lora(&payload.to_vec(), &sum)
    };
    let payload = &file[40..];
    assert_eq!(error(&reseal(&payload[..10])), LoraError::UnexpectedEnd);
    assert_eq!(error(&reseal(&payload[..10])).message(), "Unexpected end of data");
    let cut = reseal(&payload[..payload.len() - 4]);
    assert_eq!(error(&cut), LoraError::TruncatedAdapter(5));
    assert_eq!(error(&cut).message(), "Truncated data for adapter 5");
}

#[test]
fn parsing_compares_the_given_checksum() {
    let file = export_lora(&make_lora(&Config::micro(), 2, 4.0));
    let wrong = vec![0u8; 32];
    assert_eq!(parse_lora(&file, &wrong, 0).err(), Some(LoraError::ChecksumMismatch));
}

// Forward pass.

fn micro_pass() -> GpuForwardPass {
    GpuForwardPass {
        config: Config::micro(),
        seq_len: 4,
        rank: 4,
        alpha: 8.0f32.to_bits(),
        scale: 0.5f32.to_bits(),
    }
}

#[test]
fn activation_buffers_of_the_micro_model() {
    let a = GpuActivationBuffers::new(&Config::micro(), 4, 4);
    assert_eq!(a.buffers.len(), 9 + 1 + 1 + 1 + 6 + 6);
    let items = |id: BufferId| a.buffers.iter().find(|b| b.id == id).unwrap().items;
    assert_eq!(items(BufferId::Hidden), 16);
    assert_eq!(items(BufferId::TempOut), 64);
    assert_eq!(items(BufferId::KeyCache { layer: 0 }), 256);
    assert_eq!(items(BufferId::Logits), 108);
    assert_eq!(items(BufferId::LoraIntermediate { layer: 0, target: LoraTarget::V }), 4);
    assert_eq!(items(BufferId::LoraInput { layer: 0, target: LoraTarget::Mlp2 }), 64);
}

#[test]
fn layers_attend_to_their_own_caches() {
    let mut f = micro_pass();
    f.config.n_layer = 3;
    let plan = &f.forward(&[3])[0];
    let read: Vec<_> = plan
        .iter()
        .filter_map(|s| match s {
            Step::Dispatch { kernel: Kernel::AttentionScore, bound, .. } => {
                Some((bound.b1.unwrap(), bound.b2.unwrap()))
            }
            _ => None,
        })
        .collect();
    let expected: Vec<_> = (0..3 * f.config.n_head)
        .map(|i| {
            let layer = i / f.config.n_head;
            (BufferId::KeyCache { layer }, BufferId::ValueCache { layer })
        })
        .collect();
    assert_eq!(read, expected);
}

#[test]
fn forward_plan_of_the_micro_model() {
    let f = micro_pass();
    let plans = f.forward(&[3, 5]);
    assert_eq!(plans.len(), 2);
    let plan = &plans[1];
    assert_eq!(plan[0], Step::Embed { token: 5, pos: 1 });
    match plan[1] {
        Step::Dispatch { kernel, params, groups, .. } => {
            assert_eq!(kernel, Kernel::Rmsnorm);
            assert_eq!(params, Params::Layernorm { batch_seq: 1, dim: 16 });
            assert_eq!(groups, 1);
        }
        other => panic!("expected a dispatch, got {other:?}"),
    }
    let key_rows: Vec<&Step> = plan
        .iter()
        .filter(|s| matches!(s, Step::Copy { dst: BufferId::KeyCache { .. }, .. }))
        .collect();
    assert_eq!(
        key_rows,
        vec![&Step::Copy {
            src: BufferId::K,
            src_offset: 0,
            dst: BufferId::KeyCache { layer: 0 },
            dst_offset: 64,
            size: 64
        }]
    );
    assert_eq!(
        plan[plan.len() - 1],
        Step::Copy {
            src: BufferId::TempLogits,
            src_offset: 0,
            dst: BufferId::Logits,
            dst_offset: 108,
            size: 108
        }
    );
    let heads = plan
        .iter()
        .filter(|s| matches!(s, Step::Dispatch { kernel: Kernel::AttentionScore, .. }))
        .count();
    assert_eq!(heads, 4);
}

#[test]
fn forward_plan_never_aliases_and_stays_within() {
    let f = micro_pass();
    let sizes = GpuActivationBuffers::new(&f.config, f.seq_len, f.rank).buffers;
    for plan in f.forward(&[0, 26, 1, 2]) {
        for step in &plan {
            match step {
                Step::Dispatch { kernel: Kernel::Rmsnorm, .. } => {}
                Step::Dispatch { bound, .. } => {
                    let ids: Vec<BufferId> = (0..5).filter_map(|i| bound.at(i)).collect();
                    let out = ids[ids.len() - 1];
                    assert!(!ids[..ids.len() - 1].contains(&out), "{step:?}");
                }
                Step::Copy { src, src_offset, dst, dst_offset, size } => {
                    assert_ne!(src, dst);
                    for (id, offset) in [(src, src_offset), (dst, dst_offset)] {
                        if let Some(b) = sizes.iter().find(|b| b.id == *id) {
                            assert!(offset + size <= 4 * b.items as u64, "{step:?}");
                        }
                    }
                }
                _ => {}
            }
        }
    }
}

#[test]
fn uniform_words_are_padded() {
    let p = Params::AttnScore { head_dim: 4, pos: 1, scale: 2, kv_offset: 3, kv_stride: 16 };
    assert_eq!(p.words(), vec![4, 1, 2, 3, 16, 0, 0, 0]);
    assert_eq!(Params::Elementwise { count: 7 }.words(), vec![7, 0, 0, 0]);
}

// Loss.

#[test]
fn loss_plan_needs_targets() {
    assert!(GpuLoss::compute_loss(&[], 27).is_none());
    let plan = GpuLoss::compute_loss(&[1, 2, 3], 27).expect("plan");
    assert_eq!(plan.targets, vec![1, 2, 3]);
    assert_eq!(plan.steps.len(), 2);
    match plan.steps[0] {
        Step::Dispatch { kernel, params, groups, .. } => {
            assert_eq!(kernel, Kernel::CrossEntropyPerSample);
            assert_eq!(params, Params::Loss { batch_seq: 3, vocab_size: 27, total_tokens: 3 });
            assert_eq!(groups, 1);
        }
        other => panic!("expected a dispatch, got {other:?}"),
    }
}

#[test]
fn target_logits_are_found_by_row() {
    assert_eq!(GpuLoss::target_place(0, 2, 3, 3), Some(2));
    assert_eq!(GpuLoss::target_place(1, 2, 3, 6), Some(5));
    assert_eq!(GpuLoss::target_place(1, 2, 3, 5), None);
    assert_eq!(GpuLoss::target_place(0, 3, 3, 6), None);
}

// Optimizer.

fn rate(rule: LrRule, base: f32) -> f32 {
    match rule {
        LrRule::Base => base,
        LrRule::Warmup { step, of } => base * (step as f32 / of as f32),
        LrRule::Cosine { done, span } => {
            base * 0.5 * (1.0 + (std::f32::consts::PI * (done as f32 / span as f32)).cos())
        }
    }
}

#[test]
fn test_adamw_config_default() {
    let config = AdamWConfig::default();
    assert_eq!(f32::from_bits(config.learning_rate), 1e-3);
    assert_eq!(f32::from_bits(config.weight_decay), 0.01);
    assert_eq!(f32::from_bits(config.beta1), 0.9);
    assert_eq!(f32::from_bits(config.beta2), 0.999);
    assert_eq!(f32::from_bits(config.eps), 1e-8);
    assert_eq!(config.warmup_steps, 100);
}

#[test]
fn test_warmup_lr() {
    let config = AdamWConfig { warmup_steps: 100, ..Default::default() };
    let mut optimizer = AdamWOptimizer::new(config);
    assert!(rate(optimizer.current_lr(), 1e-3).abs() < 1e-10);
    optimizer.step = 50;
    let lr = rate(optimizer.current_lr(), 1e-3);
    assert!((lr - 5e-4).abs() < 1e-6, "Warmup at 50%: expected ~5e-4, got {lr}");
    optimizer.step = 200;
    let lr = rate(optimizer.current_lr(), 1e-3);
    assert!((lr - 1e-3).abs() < 1e-10, "After warmup: expected 1e-3, got {lr}");
}

#[test]
fn test_cosine_decay_lr() {
    let config = AdamWConfig { warmup_steps: 0, ..Default::default() };
    let mut optimizer = AdamWOptimizer::new(config);
    let lr = rate(optimizer.current_lr_cosine(1000), 1e-3);
    assert!((lr - 1e-3).abs() < 1e-10, "Cosine at start: expected 1e-3, got {lr}");
    optimizer.step = 500;
    let lr = rate(optimizer.current_lr_cosine(1000), 1e-3);
    assert!((lr - 5e-4).abs() < 1e-5, "Cosine at 50%: expected ~5e-4, got {lr}");
    optimizer.step = 1000;
    let lr = rate(optimizer.current_lr_cosine(1000), 1e-3);
    assert!(lr < 1e-5, "Cosine at end: expected ~0, got {lr}");
    assert_eq!(optimizer.current_lr_cosine(0), LrRule::Base);
}

#[test]
fn optimizer_updates_each_group_once() {
    let lora = make_lora(&Config::micro(), 2, 4.0);
    let mut o = AdamWOptimizer::new(AdamWConfig { warmup_steps: 0, ..Default::default() });
    assert_eq!(o.step(), LrRule::Base);
    assert_eq!(o.current_step(), 1);
    let steps = o.updates(&lora, 1e-2f32.to_bits());
    assert_eq!(steps.len(), 12);
    match steps[11] {
        Step::Dispatch { kernel, bound, params, groups } => {
            assert_eq!(kernel, Kernel::AdamwStep);
            assert_eq!(bound.at(0), Some(BufferId::Param { adapter: 5, second: true }));
            assert_eq!(groups, 1);
            match params {
                Params::AdamW { lr, step, param_count, .. } => {
                    assert_eq!(lr, 1e-2f32.to_bits());
                    assert_eq!(step, 1);
                    assert_eq!(param_count, 32);
                }
                other => panic!("expected AdamW parameters, got {other:?}"),
            }
        }
        other => panic!("expected a dispatch, got {other:?}"),
    }
    o.reset();
    assert_eq!(o.current_step(), 0);
}

// Backward pass.

#[test]
fn backward_plan_of_the_micro_model() {
    let b = GpuBackwardPass::new(Config { n_layer: 3, ..Config::micro() });
    assert_eq!(b.layer_order(), vec![2, 1, 0]);
    let rows = b.backward_pass(2, &[4, 99]);
    assert_eq!((rows[0].start, rows[0].end, rows[0].target), (0, 27, Some(4)));
    assert_eq!((rows[1].start, rows[1].end, rows[1].target), (27, 54, None));
    let steps = b.backward_layer();
    let targets: Vec<LoraTarget> = steps
        .iter()
        .filter_map(|s| match s {
            GradStep::Lora { target, .. } => Some(*target),
            _ => None,
        })
        .collect();
    assert_eq!(
        targets,
        vec![
            LoraTarget::Mlp2,
            LoraTarget::Mlp1,
            LoraTarget::O,
            LoraTarget::Q,
            LoraTarget::K,
            LoraTarget::V
        ]
    );
    assert_eq!(
        steps[0],
        GradStep::Project {
            weight: LoraTarget::Mlp2,
            rows: 16,
            cols: 64,
            input: GradId::Hidden,
            len: 16,
            output: GradId::MlpHidden
        }
    );
    assert_eq!(steps.len(), 15);
    assert_eq!(
        steps[4],
        GradStep::Sum {
            first: GradId::Hidden,
            second: GradId::AfterNorm,
            output: GradId::AfterAttn
        }
    );
    assert_eq!(
        steps[14],
        GradStep::Sum {
            first: GradId::AfterAttn,
            second: GradId::BeforeNorm,
            output: GradId::Input
        }
    );
}

// Training loop.

#[test]
fn test_training_config_default() {
    let config = TrainingConfig::default();
    assert_eq!(config.epochs, 10);
    assert_eq!(f32::from_bits(config.learning_rate), 1e-3);
    assert_eq!(config.lora_rank, 4);
    assert_eq!(f32::from_bits(config.lora_alpha), 8.0);
    assert_eq!(config.checkpoint_dir, "checkpoints");
}

#[test]
fn test_training_config_toy() {
    let config = TrainingConfig::toy();
    assert_eq!(config.epochs, 5);
    assert_eq!(config.warmup_steps, 0);
    assert_eq!(config.lora_rank, 2);
}

#[test]
fn bpe_validator_config() {
    let config = TrainingConfig::bpe_validator();
    assert_eq!(f32::from_bits(config.learning_rate), 5e-4);
    assert_eq!(config.seq_len, 64);
    assert_eq!(config.checkpoint_dir, "checkpoints_bpe");
    assert_eq!(f32::from_bits(config.adamw().eps), 1e-8);
    assert_eq!(config.adamw().warmup_steps, 50);
}

#[test]
fn recording_logs_and_saves_the_best() {
    let mut config = TrainingConfig::toy();
    config.log_interval = 2;
    config.checkpoint_interval = 2;
    let mut t = Trainer::new();
    let losses = [3.0f32, 2.0, 1.0, 2.5, 0.5, f32::NAN, 9.0, 1.5];
    let mut logs = Vec::new();
    let mut saved = Vec::new();
    for loss in losses {
        let a = t.record(&config, loss.to_bits());
        logs.push(a.log);
        saved.push(a.checkpoint);
    }
    assert_eq!(
        logs,
        vec![None, Some(2), None, Some(2), None, Some(2), None, Some(2)]
    );
    assert_eq!(saved[1].as_deref(), Some("lora_step_2.bin"));
    assert_eq!(saved[3], None);
    assert_eq!(saved[5], None);
    assert_eq!(saved[7].as_deref(), Some("lora_step_8.bin"));
    assert_eq!(t.end_epoch().len(), 8);
    let report = t.report(5);
    assert_eq!(report.total_steps, 8);
    assert_eq!(report.total_epochs, 5);
    assert_eq!(f32::from_bits(report.best_loss), 1.5);
    assert_eq!(f32::from_bits(report.final_loss), 1.5);
    assert_eq!(report.loss_history[2], (2, 1.0f32.to_bits()));
    assert_eq!(final_name(), "lora_final.bin");
}

#[test]
fn interval_zero_never_comes_due() {
    let mut config = TrainingConfig::toy();
    config.log_interval = 0;
    config.checkpoint_interval = 0;
    let mut t = Trainer::new();
    let a = t.record(&config, 0);
    assert!(a.log.is_none() && a.checkpoint.is_none());
    assert_eq!(f32::from_bits(Trainer::new().report(0).best_loss), f32::MAX);
    assert_eq!(Trainer::new().report(0).final_loss, 0);
}

#[test]
fn a_run_visits_every_batch_of_every_epoch() {
    let config = TrainingConfig::toy();
    let samples = toy_samples(27, config.seq_len);
    let mut dl = DataLoader::from_samples(samples, 4, config.seq_len, 0).expect("data");
    let mut run = TrainingRun::new(2);
    let mut visited = Vec::new();
    loop {
        match run.next_action() {
            RunAction::StartEpoch { .. } => {
                let n = dl.batches().len();
                run.epoch_started(n);
            }
            RunAction::Batch { epoch, index, of } => {
                assert_eq!(of, 3);
                visited.push((epoch, index));
                run.batch_done(&config, 1.0f32.to_bits());
            }
            RunAction::EndEpoch { .. } => {
                assert_eq!(run.epoch_ended().len(), 3);
            }
            RunAction::Finish => break,
        }
    }
    assert_eq!(visited, vec![(0, 0), (0, 1), (0, 2), (1, 0), (1, 1), (1, 2)]);
    assert_eq!(run.trainer.report(2).total_steps, 6);
}

#[test]
fn toy_data_repeats_its_pattern() {
    let samples = toy_samples(27, 4);
    assert_eq!(samples.len(), 10);
    assert_eq!(samples[0].tokens, vec![3, 4, 5, 6, 7, 8]);
    assert_eq!(samples[1].tokens, vec![6, 7, 8, 9, 10, 11]);
    let narrow = toy_samples(8, 2);
    assert_eq!(narrow[2].tokens, vec![7, 7, 7, 7]);
    assert_eq!(narrow[0].tokens, vec![3, 4, 3, 4]);
}

#[test]
fn training_error_messages() {
    assert_eq!(TrainingError::Gpu("lost".to_string()).message(), "GPU error: lost");
    assert_eq!(
        TrainingError::Data(DataLoaderError::NoSamples).message(),
        "Data error: No training samples found"
    );
    assert_eq!(
        TrainingError::Data(DataLoaderError::Io("gone".to_string())).message(),
        "Data error: IO error: gone"
    );
    assert_eq!(DataLoaderError::Json("bad".to_string()).message(), "JSON error: bad");
    assert_eq!(
        TrainingError::NoImprovement("flat".to_string()).message(),
        "No improvement: flat"
    );
}

#[test]
fn weights_are_uploaded_layer_by_layer() {
    let w = GpuWeightBuffers::from_weights(11);
    assert_eq!(w.uploads.len(), 69);
    let labels: Vec<&str> = w.uploads.iter().take(9).map(|u| u.label.as_str()).collect();
    assert_eq!(
        labels,
        ["wte", "wpe", "lm_head", "l0_wq", "l0_wk", "l0_wv", "l0_wo", "l0_mlp1", "l0_mlp2"]
    );
    assert_eq!(w.uploads[68].label, "l10_mlp2");
    assert_eq!(w.uploads[68].part, WeightPart::Layer { layer: 10, target: LoraTarget::Mlp2 });
    assert_eq!(GpuWeightBuffers::from_weights(0).uploads.len(), 3);
}
