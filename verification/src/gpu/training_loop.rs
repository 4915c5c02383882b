//! The training loop: its settings, and what follows from the loss of each step.
//!
//! Rates and losses are bit patterns of single-precision numbers.

use vstd::prelude::*;

use crate::float_bits;
use crate::float_bits::is_below;
use crate::gpu::dataloader::DataLoaderError;
use crate::gpu::dataloader::TrainingSample;
use crate::gpu::optimizer::AdamWConfig;
use crate::text;
use crate::text::prefixed;
use crate::text::push_decimal;
use crate::text::push_text;

verus! {

/// Bit pattern of the largest finite number.
pub const MAX_BITS: u32 = 0x7F7F_FFFF;

/// Configuration for the training loop.
#[derive(Clone, Debug)]
pub struct TrainingConfig {
    pub epochs: usize,
    pub learning_rate: u32,
    pub weight_decay: u32,
    pub beta1: u32,
    pub beta2: u32,
    pub warmup_steps: usize,
    pub log_interval: usize,
    pub checkpoint_interval: usize,
    pub checkpoint_dir: String,
    pub seq_len: usize,
    pub batch_size: usize,
    pub pad_id: usize,
    pub lora_rank: usize,
    pub lora_alpha: u32,
}

impl TrainingConfig {
    /// What the presets share: weight decay 0.01, betas 0.9 and 0.999, padding with token 0.
    pub open spec fn shared_rates(self) -> bool {
        &&& self.weight_decay == 0x3C23_D70A
        &&& self.beta1 == 0x3F66_6666
        &&& self.beta2 == 0x3F7F_BE77
        &&& self.pad_id == 0
    }

    /// Config for quick testing (few steps, small model): learning rate 1e-3, alpha 4.
    pub fn toy() -> (c: TrainingConfig)
        ensures
            c.shared_rates(),
            c.epochs == 5,
            c.learning_rate == 0x3A83_126F,
            c.warmup_steps == 0,
            c.log_interval == 1,
            c.checkpoint_interval == 5,
            c.checkpoint_dir@ == "checkpoints_toy"@,
            c.seq_len == 8,
            c.batch_size == 2,
            c.lora_rank == 2,
            c.lora_alpha == 0x4080_0000,
    {
        TrainingConfig {
            epochs: 5,
            learning_rate: 0x3A83_126F,
            weight_decay: 0x3C23_D70A,
            beta1: 0x3F66_6666,
            beta2: 0x3F7F_BE77,
            warmup_steps: 0,
            log_interval: 1,
            checkpoint_interval: 5,
            checkpoint_dir: "checkpoints_toy".to_string(),
            seq_len: 8,
            batch_size: 2,
            pad_id: 0,
            lora_rank: 2,
            lora_alpha: 0x4080_0000,
        }
    }

    /// Config for BPE validator training: learning rate 5e-4, alpha 8.
    pub fn bpe_validator() -> (c: TrainingConfig)
        ensures
            c.shared_rates(),
            c.epochs == 3,
            c.learning_rate == 0x3A03_126F,
            c.warmup_steps == 50,
            c.log_interval == 10,
            c.checkpoint_interval == 100,
            c.checkpoint_dir@ == "checkpoints_bpe"@,
            c.seq_len == 64,
            c.batch_size == 8,
            c.lora_rank == 4,
            c.lora_alpha == 0x4100_0000,
    {
        TrainingConfig {
            epochs: 3,
            learning_rate: 0x3A03_126F,
            weight_decay: 0x3C23_D70A,
            beta1: 0x3F66_6666,
            beta2: 0x3F7F_BE77,
            warmup_steps: 50,
            log_interval: 10,
            checkpoint_interval: 100,
            checkpoint_dir: "checkpoints_bpe".to_string(),
            seq_len: 64,
            batch_size: 8,
            pad_id: 0,
            lora_rank: 4,
            lora_alpha: 0x4100_0000,
        }
    }

    /// The optimizer settings of a training run, with eps 1e-8.
    pub fn adamw(&self) -> (c: AdamWConfig)
        ensures
            c == (AdamWConfig {
                learning_rate: self.learning_rate,
                weight_decay: self.weight_decay,
                beta1: self.beta1,
                beta2: self.beta2,
                eps: 0x322B_CC77,
                warmup_steps: self.warmup_steps,
            }),
    {
        AdamWConfig {
            learning_rate: self.learning_rate,
            weight_decay: self.weight_decay,
            beta1: self.beta1,
            beta2: self.beta2,
            eps: 0x322B_CC77,
            warmup_steps: self.warmup_steps,
        }
    }
}

impl Default for TrainingConfig {
    /// Learning rate 1e-3, alpha 8.
    fn default() -> (c: TrainingConfig)
        ensures
            c.shared_rates(),
            c.epochs == 10,
            c.learning_rate == 0x3A83_126F,
            c.warmup_steps == 100,
            c.log_interval == 10,
            c.checkpoint_interval == 100,
            c.checkpoint_dir@ == "checkpoints"@,
            c.seq_len == 16,
            c.batch_size == 4,
            c.lora_rank == 4,
            c.lora_alpha == 0x4100_0000,
    {
        TrainingConfig {
            epochs: 10,
            learning_rate: 0x3A83_126F,
            weight_decay: 0x3C23_D70A,
            beta1: 0x3F66_6666,
            beta2: 0x3F7F_BE77,
            warmup_steps: 100,
            log_interval: 10,
            checkpoint_interval: 100,
            checkpoint_dir: "checkpoints".to_string(),
            seq_len: 16,
            batch_size: 4,
            pad_id: 0,
            lora_rank: 4,
            lora_alpha: 0x4100_0000,
        }
    }
}

/// Results from a completed training run.
#[derive(Debug)]
pub struct TrainingReport {
    pub total_steps: u32,
    pub total_epochs: usize,
    pub best_loss: u32,
    pub final_loss: u32,
    pub loss_history: Vec<(u32, u32)>,
}

/// Errors that can occur during training.
#[derive(Debug)]
pub enum TrainingError {
    Gpu(String),
    Data(DataLoaderError),
    NoImprovement(String),
}

impl TrainingError {
    /// What a message of this error says.
    pub open spec fn text(self) -> Seq<char> {
        match self {
            TrainingError::Gpu(e) => "GPU error: "@ + e@,
            TrainingError::Data(e) => "Data error: "@ + e.text(),
            TrainingError::NoImprovement(msg) => "No improvement: "@ + msg@,
        }
    }

    /// The message of this error.
    pub fn message(&self) -> (s: String)
        ensures
            s@ == self.text(),
    {
        match self {
            TrainingError::Gpu(e) => prefixed("GPU error: ", e.as_str()),
            TrainingError::Data(e) => prefixed("Data error: ", e.message().as_str()),
            TrainingError::NoImprovement(msg) => prefixed("No improvement: ", msg.as_str()),
        }
    }
}

/// Whether a step count is a multiple of an interval. No step is one of the interval zero.
pub open spec fn due(step: u32, interval: usize) -> bool {
    interval as u32 != 0 && step % (interval as u32) == 0
}

/// The name of a step's checkpoint file.
pub open spec fn checkpoint_name(step: u32) -> Seq<char> {
    "lora_step_"@ + text::decimal(step as nat) + ".bin"@
}

/// The name of the file of the final model.
pub fn final_name() -> (s: &'static str)
    ensures
        s@ == "lora_final.bin"@,
{
    "lora_final.bin"
}

/// What is to be done after a step.
#[derive(Debug)]
pub struct StepActions {
    /// Log the mean loss over this many steps.
    pub log: Option<u32>,
    /// Save a checkpoint under this name.
    pub checkpoint: Option<String>,
}

/// The state of a training run between steps.
#[derive(Debug)]
pub struct Trainer {
    pub step: u32,
    pub best_loss: u32,
    pub loss_history: Vec<(u32, u32)>,
    pub steps_since_log: u32,
    pub epoch_losses: Vec<u32>,
}

impl Trainer {
    /// The run has counted its steps.
    pub open spec fn wf(self) -> bool {
        &&& self.loss_history@.len() == self.step
        &&& forall|i: int|
            0 <= i < self.loss_history@.len() ==> (#[trigger] self.loss_history@[i]).0 == i
        &&& self.steps_since_log <= self.step
        &&& float_bits::is_number(self.best_loss)
    }

    /// What recording a loss does: a log line at every `log_interval` steps, a checkpoint at
    /// every `checkpoint_interval` steps whose loss is the best of those, so that the best loss
    /// only falls.
    pub open spec fn records(
        self,
        after: Trainer,
        config: TrainingConfig,
        loss: u32,
        a: StepActions,
    ) -> bool {
        let log = due(after.step, config.log_interval);
        let save = due(after.step, config.checkpoint_interval) && float_bits::below(
            loss,
            self.best_loss,
        );
        &&& after.step == self.step + 1
        &&& after.loss_history@ == self.loss_history@.push((self.step, loss))
        &&& after.epoch_losses@ == self.epoch_losses@.push(loss)
        &&& a.log == (if log {
            Some((self.steps_since_log + 1) as u32)
        } else {
            None
        })
        &&& after.steps_since_log == (if log {
            0
        } else {
            self.steps_since_log + 1
        })
        &&& a.checkpoint is Some <==> save
        &&& a.checkpoint matches Some(name) ==> name@ == checkpoint_name(after.step)
        &&& after.best_loss == (if save {
            loss
        } else {
            self.best_loss
        })
        &&& float_bits::key(after.best_loss) <= float_bits::key(self.best_loss)
    }

    /// A run before its first step.
    pub fn new() -> (t: Trainer)
        ensures
            t.wf(),
            t.step == 0,
            t.best_loss == MAX_BITS,
            t.loss_history@.len() == 0,
            t.steps_since_log == 0,
            t.epoch_losses@.len() == 0,
    {
        Trainer {
            step: 0,
            best_loss: MAX_BITS,
            loss_history: Vec::new(),
            steps_since_log: 0,
            epoch_losses: Vec::new(),
        }
    }

    /// Record the loss of a step and decide what follows.
    pub fn record(&mut self, config: &TrainingConfig, loss: u32) -> (a: StepActions)
        requires
            old(self).wf(),
            old(self).step < u32::MAX,
        ensures
            final(self).wf(),
            old(self).records(*final(self), *config, loss, a),
    {
        self.epoch_losses.push(loss);
        self.loss_history.push((self.step, loss));
        self.steps_since_log = self.steps_since_log + 1;
        self.step = self.step + 1;
        let log_every: u32 = config.log_interval as u32;
        let mut log: Option<u32> = None;
        if log_every != 0 && self.step % log_every == 0 {
            log = Some(self.steps_since_log);
            self.steps_since_log = 0;
        }
        let save_every: u32 = config.checkpoint_interval as u32;
        let mut checkpoint: Option<String> = None;
        if save_every != 0 && self.step % save_every == 0 && is_below(loss, self.best_loss) {
            self.best_loss = loss;
            let mut name = String::new();
            push_text(&mut name, "lora_step_");
            push_decimal(&mut name, self.step as u64);
            push_text(&mut name, ".bin");
            assert(name@ =~= checkpoint_name(self.step));
            checkpoint = Some(name);
        }
        StepActions { log, checkpoint }
    }

    /// End an epoch: the losses of its steps, which are then forgotten.
    pub fn end_epoch(&mut self) -> (losses: Vec<u32>)
        requires
            old(self).wf(),
        ensures
            final(self).wf(),
            losses@ == old(self).epoch_losses@,
            final(self).epoch_losses@.len() == 0,
            final(self).step == old(self).step,
            final(self).best_loss == old(self).best_loss,
            final(self).loss_history == old(self).loss_history,
            final(self).steps_since_log == old(self).steps_since_log,
    {
        let mut losses: Vec<u32> = Vec::new();
        std::mem::swap(&mut losses, &mut self.epoch_losses);
        losses
    }

    /// The report of a run. Without a step, the final loss is zero.
    pub fn report(self, epochs: usize) -> (r: TrainingReport)
        requires
            self.wf(),
        ensures
            r.total_steps == self.step,
            r.total_epochs == epochs,
            r.best_loss == self.best_loss,
            r.loss_history == self.loss_history,
            r.final_loss == (if self.step == 0 {
                0
            } else {
                self.loss_history@[self.step - 1].1
            }),
    {
        let n: usize = self.loss_history.len();
        let final_loss: u32 = if n == 0 {
            0
        } else {
            self.loss_history[n - 1].1
        };
        TrainingReport {
            total_steps: self.step,
            total_epochs: epochs,
            best_loss: self.best_loss,
            final_loss,
            loss_history: self.loss_history,
        }
    }
}

/// What a training run does next.
#[derive(Clone, Copy, Debug, PartialEq, Eq, Structural)]
pub enum RunAction {
    /// Shuffle and batch the data for an epoch.
    StartEpoch { epoch: usize },
    /// Forward pass, loss, backward pass and optimizer step of a batch.
    Batch { epoch: usize, index: usize, of: usize },
    /// Sum up an epoch.
    EndEpoch { epoch: usize },
    /// Save the final model and report.
    Finish,
}

/// A training run: its epochs, the batches of the epoch in progress, and its steps so far.
#[derive(Debug)]
pub struct TrainingRun {
    pub trainer: Trainer,
    pub epochs: usize,
    pub epoch: usize,
    pub in_epoch: bool,
    pub batches: usize,
    pub next: usize,
}

impl TrainingRun {
    /// The run is within its epochs, and has one loss for each batch of the epoch in progress.
    pub open spec fn wf(self) -> bool {
        &&& self.trainer.wf()
        &&& self.epoch <= self.epochs
        &&& self.in_epoch ==> self.epoch < self.epochs && self.next <= self.batches
        &&& !self.in_epoch ==> self.next == 0
        &&& self.trainer.epoch_losses@.len() == self.next
    }

    /// The run has taken a step for each batch, where every epoch has `b` batches.
    pub open spec fn on_schedule(self, b: nat) -> bool {
        &&& self.trainer.step == self.epoch * b + self.next
        &&& self.in_epoch ==> self.batches == b
    }

    /// What comes next.
    pub open spec fn upcoming(self) -> RunAction {
        if self.epoch >= self.epochs {
            RunAction::Finish
        } else if !self.in_epoch {
            RunAction::StartEpoch { epoch: self.epoch }
        } else if self.next < self.batches {
            RunAction::Batch { epoch: self.epoch, index: self.next, of: self.batches }
        } else {
            RunAction::EndEpoch { epoch: self.epoch }
        }
    }

    /// A run of a number of epochs.
    pub fn new(epochs: usize) -> (r: TrainingRun)
        ensures
            r.wf(),
            r.epochs == epochs,
            r.epoch == 0,
            !r.in_epoch,
            r.batches == 0,
            r.next == 0,
            r.trainer.step == 0,
            r.trainer.best_loss == MAX_BITS,
            r.trainer.loss_history@.len() == 0,
            r.trainer.steps_since_log == 0,
            r.trainer.epoch_losses@.len() == 0,
            forall|b: nat| r.on_schedule(b),
    {
        let r = TrainingRun {
            trainer: Trainer::new(),
            epochs,
            epoch: 0,
            in_epoch: false,
            batches: 0,
            next: 0,
        };
        assert forall|b: nat| r.on_schedule(b) by {
            assert(0 * b == 0) by (nonlinear_arith);
        }
        r
    }

    /// What to do next.
    pub fn next_action(&self) -> (a: RunAction)
        ensures
            a == self.upcoming(),
    {
        if self.epoch >= self.epochs {
            RunAction::Finish
        } else if !self.in_epoch {
            RunAction::StartEpoch { epoch: self.epoch }
        } else if self.next < self.batches {
            RunAction::Batch { epoch: self.epoch, index: self.next, of: self.batches }
        } else {
            RunAction::EndEpoch { epoch: self.epoch }
        }
    }

    /// An epoch's data was batched.
    pub fn epoch_started(&mut self, batches: usize)
        requires
            old(self).wf(),
            old(self).upcoming() is StartEpoch,
        ensures
            final(self).wf(),
            final(self).in_epoch,
            final(self).batches == batches,
            final(self).next == 0,
            final(self).epoch == old(self).epoch,
            final(self).epochs == old(self).epochs,
            final(self).trainer == old(self).trainer,
            old(self).on_schedule(batches as nat) ==> final(self).on_schedule(batches as nat),
    {
        self.in_epoch = true;
        self.batches = batches;
    }

    /// A batch was trained on: record its loss and decide what follows.
    pub fn batch_done(&mut self, config: &TrainingConfig, loss: u32) -> (a: StepActions)
        requires
            old(self).wf(),
            old(self).upcoming() is Batch,
            old(self).trainer.step < u32::MAX,
        ensures
            final(self).wf(),
            final(self).in_epoch,
            final(self).next == old(self).next + 1,
            final(self).batches == old(self).batches,
            final(self).epoch == old(self).epoch,
            final(self).epochs == old(self).epochs,
            old(self).trainer.records(final(self).trainer, *config, loss, a),
            forall|b: nat| old(self).on_schedule(b) ==> final(self).on_schedule(b),
    {
        self.next = self.next + 1;
        self.trainer.record(config, loss)
    }

    /// An epoch is over: the losses of its batches.
    pub fn epoch_ended(&mut self) -> (losses: Vec<u32>)
        requires
            old(self).wf(),
            old(self).upcoming() is EndEpoch,
        ensures
            final(self).wf(),
            !final(self).in_epoch,
            final(self).epoch == old(self).epoch + 1,
            final(self).epochs == old(self).epochs,
            final(self).batches == old(self).batches,
            final(self).next == 0,
            final(self).trainer.epoch_losses@.len() == 0,
            losses@ == old(self).trainer.epoch_losses@,
            losses@.len() == old(self).batches,
            final(self).trainer.step == old(self).trainer.step,
            final(self).trainer.best_loss == old(self).trainer.best_loss,
            final(self).trainer.loss_history == old(self).trainer.loss_history,
            final(self).trainer.steps_since_log == old(self).trainer.steps_since_log,
            forall|b: nat| old(self).on_schedule(b) ==> final(self).on_schedule(b),
    {
        let ghost before = *self;
        let losses = self.trainer.end_epoch();
        self.in_epoch = false;
        self.epoch = self.epoch + 1;
        self.next = 0;
        assert forall|b: nat| before.on_schedule(b) implies self.on_schedule(b) by {
            assert((before.epoch + 1) * b == before.epoch * b + b) by (nonlinear_arith);
        }
        losses
    }
}

/// A finished run whose epochs had `b` batches each has taken one step per epoch and batch.
pub proof fn law_finished_run_took_every_step(r: TrainingRun, b: nat)
    requires
        r.wf(),
        r.on_schedule(b),
        r.upcoming() is Finish,
    ensures
        r.trainer.step == r.epochs * b,
        r.trainer.loss_history@.len() == r.epochs * b,
{
}

/// The token of a toy sample at a place: a repeating pattern that depends on the sample.
pub open spec fn toy_token(vocab_size: int, sample: int, place: int) -> int {
    let t = (sample % 3 + 1) * 3 + place % (vocab_size / 4);
    if t < vocab_size - 1 {
        t
    } else {
        vocab_size - 1
    }
}

/// Toy training data: ten samples of simple repeating patterns, each two tokens longer than a
/// sequence.
pub fn toy_samples(vocab_size: usize, seq_len: usize) -> (samples: Vec<TrainingSample>)
    requires
        vocab_size >= 4,
        seq_len + 2 <= usize::MAX,
        vocab_size + 9 <= usize::MAX,
    ensures
        samples@.len() == 10,
        forall|i: int|
            0 <= i < 10 ==> (#[trigger] samples@[i]).tokens@ == Seq::new(
                (seq_len + 2) as nat,
                |j: int| toy_token(vocab_size as int, i, j) as usize,
            ),
{
    let len: usize = seq_len + 2;
    let period: usize = vocab_size / 4;
    let mut samples: Vec<TrainingSample> = Vec::new();
    let mut i: usize = 0;
    while i < 10
        invariant
            i <= 10,
            len == seq_len + 2,
            period == vocab_size / 4,
            vocab_size >= 4,
            vocab_size + 9 <= usize::MAX,
            samples@.len() == i,
            forall|s: int|
                0 <= s < i ==> (#[trigger] samples@[s]).tokens@ == Seq::new(
                    (seq_len + 2) as nat,
                    |j: int| toy_token(vocab_size as int, s, j) as usize,
                ),
        decreases 10 - i,
    {
        let base: usize = (i % 3 + 1) * 3;
        let mut tokens: Vec<usize> = Vec::new();
        let mut j: usize = 0;
        while j < len
            invariant
                j <= len,
                base == (i % 3 + 1) * 3,
                base <= 9,
                period == vocab_size / 4,
                vocab_size >= 4,
                vocab_size + 9 <= usize::MAX,
                tokens@ =~= Seq::new(
                    j as nat,
                    |q: int| toy_token(vocab_size as int, i as int, q) as usize,
                ),
            decreases len - j,
        {
            let t: usize = base + j % period;
            tokens.push(
                if t < vocab_size - 1 {
                    t
                } else {
                    vocab_size - 1
                },
            );
            j = j + 1;
        }
        samples.push(TrainingSample { tokens });
        i = i + 1;
    }
    samples
}

/// Every token of the toy data is a token of the vocabulary.
pub proof fn law_toy_tokens_are_tokens(vocab_size: int, sample: int, place: int)
    requires
        vocab_size >= 4,
        0 <= sample,
        0 <= place,
    ensures
        0 <= toy_token(vocab_size, sample, place) < vocab_size,
{
}

/// What an interval is due at are its multiples: the first after as many steps as it counts, and
/// then again after as many. The interval zero is never due.
pub proof fn law_intervals_come_round(step: u32, interval: usize)
    requires
        interval <= u32::MAX,
    ensures
        !due(step, 0),
        0 < interval ==> due(interval as u32, interval),
        0 < interval && step + interval <= u32::MAX ==> due((step + interval) as u32, interval)
            == due(step, interval),
        0 < step < interval ==> !due(step, interval),
{
    if interval > 0 {
        let i = interval as int;
        vstd::arithmetic::div_mod::lemma_mod_self_0(i);
        vstd::arithmetic::div_mod::lemma_mod_add_multiples_vanish(step as int, i);
        if 0 < step < interval {
            vstd::arithmetic::div_mod::lemma_small_mod(step as nat, i as nat);
        }
        assert((step + interval) as int == i + step);
    }
}

/// Each step is recorded with its loss. A line is logged when the log interval comes round, and
/// says how many steps it covers; a checkpoint is saved when its interval comes round with a loss
/// below the best saved so far, which is then the best. The best never rises.
pub proof fn law_steps_are_recorded(
    before: Trainer,
    after: Trainer,
    config: TrainingConfig,
    loss: u32,
    a: StepActions,
)
    requires
        before.wf(),
        before.records(after, config, loss, a),
    ensures
        after.step == before.step + 1,
        after.loss_history@.last() == (before.step, loss),
        after.loss_history@.len() == before.loss_history@.len() + 1,
        a.log is Some == due(after.step, config.log_interval),
        a.log matches Some(n) ==> n == before.steps_since_log + 1 && after.steps_since_log == 0,
        a.log is None ==> after.steps_since_log == before.steps_since_log + 1,
        a.checkpoint is Some ==> due(after.step, config.checkpoint_interval) && float_bits::below(
            loss,
            before.best_loss,
        ) && after.best_loss == loss,
        a.checkpoint is None ==> after.best_loss == before.best_loss,
        due(after.step, config.checkpoint_interval) && float_bits::below(loss, before.best_loss)
            ==> a.checkpoint is Some,
        float_bits::at_most(after.best_loss, before.best_loss) || after.best_loss
            == before.best_loss,
{
}

/// The toy samples repeat: every third sample is the same, and within a sample the tokens rise one
/// by one through a quarter of the vocabulary, as far as there are tokens, and start over.
pub proof fn law_toy_samples_repeat(vocab_size: int, sample: int, place: int)
    requires
        4 <= vocab_size,
        0 <= sample,
        0 <= place,
    ensures
        toy_token(vocab_size, sample + 3, place) == toy_token(vocab_size, sample, place),
        toy_token(vocab_size, sample, place + vocab_size / 4) == toy_token(
            vocab_size,
            sample,
            place,
        ),
        place + 1 < vocab_size / 4 && toy_token(vocab_size, sample, place) < vocab_size - 1
            ==> toy_token(vocab_size, sample, place + 1) == toy_token(vocab_size, sample, place) + 1,
        vocab_size > 10 ==> toy_token(vocab_size, 0, 0) == 3,
{
    let q = vocab_size / 4;
    vstd::arithmetic::div_mod::lemma_mod_add_multiples_vanish(place, q);
    if place + 1 < q {
        vstd::arithmetic::div_mod::lemma_small_mod(place as nat, q as nat);
        vstd::arithmetic::div_mod::lemma_small_mod((place + 1) as nat, q as nat);
    }
    vstd::arithmetic::div_mod::lemma_small_mod(0, q as nat);
}

/// A run goes from epoch to epoch and in each from batch to batch: an epoch is started before its
/// batches, which are taken in order, and ended after them, and after the last epoch the run is
/// finished.
pub proof fn law_runs_go_through_all_batches(r: TrainingRun)
    requires
        r.wf(),
    ensures
        r.upcoming() is Finish == (r.epoch == r.epochs),
        r.upcoming() matches RunAction::Batch { epoch, index, of } ==> epoch == r.epoch && index
            == r.trainer.epoch_losses@.len() && index < of && of == r.batches,
        r.upcoming() matches RunAction::EndEpoch { epoch } ==> epoch == r.epoch
            && r.trainer.epoch_losses@.len() == r.batches,
        r.upcoming() matches RunAction::StartEpoch { epoch } ==> epoch == r.epoch
            && r.trainer.epoch_losses@.len() == 0,
        r.in_epoch && r.trainer.epoch_losses@.len() < r.batches ==> r.upcoming() is Batch,
{
}

impl TrainingConfig {
    /// The rates that the presets share are the single-precision numbers nearest to a hundredth,
    /// nine tenths and 999 thousandths, and what is padded is padded with the first token.
    pub proof fn law_shared_rates(self)
        requires
            self.shared_rates(),
        ensures
            float_bits::is_nearest_to(self.weight_decay, 1, 100),
            float_bits::is_nearest_to(self.beta1, 9, 10),
            float_bits::is_nearest_to(self.beta2, 999, 1000),
            self.pad_id == 0,
    {
        vstd::arithmetic::power2::lemma2_to64();
    }
}

/// The losses of an epoch are kept in the order in which they are recorded, and a checkpoint is
/// named by the number of its step.
pub proof fn law_losses_are_kept_in_order(
    before: Trainer,
    after: Trainer,
    config: TrainingConfig,
    loss: u32,
    a: StepActions,
)
    requires
        before.records(after, config, loss, a),
    ensures
        after.epoch_losses@.len() == before.epoch_losses@.len() + 1,
        after.epoch_losses@.last() == loss,
        after.epoch_losses@.drop_last() == before.epoch_losses@,
        a.checkpoint matches Some(name) ==> {
            let n = name@.len() - 4;
            &&& name@.take(10) == "lora_step_"@
            &&& name@.skip(n) == ".bin"@
            &&& text::value_of(name@.subrange(10, n)) == after.step
        },
{
    assert(after.epoch_losses@.drop_last() =~= before.epoch_losses@);
    reveal_strlit("lora_step_");
    reveal_strlit(".bin");
    let digits = text::decimal(after.step as nat);
    text::law_decimal_stands_for_its_number(after.step as nat);
    let whole = checkpoint_name(after.step);
    assert(whole.take(10) =~= "lora_step_"@);
    assert(whole.skip(whole.len() - 4) =~= ".bin"@);
    assert(whole.subrange(10, whole.len() - 4) =~= digits);
}

} // verus!
