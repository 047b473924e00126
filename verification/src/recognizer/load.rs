//! Loading the models, one after the other.
//!
//! Models are loaded outside of this library. A loader says what is to be loaded next, and
//! with which settings, and is told what came of it, until all are there or one is not.
use vstd::prelude::*;

use crate::hub::resolve::{Model, ModelPath};
use crate::hub::resolve;
use crate::recognizer::segments;

verus! {

/// Settings of the denoiser.
pub struct DenoiserSettings {
    pub model: ModelPath,
    pub num_threads: i32,
    pub provider: String,
}

/// Settings of the speech recogniser.
pub struct AsrSettings {
    pub conv_frontend: ModelPath,
    pub encoder: ModelPath,
    pub decoder: ModelPath,
    pub tokenizer: ModelPath,
    pub max_new_tokens: i32,
    pub num_threads: i32,
}

/// Settings of the voice activity detector.
pub struct VadSettings {
    pub model: ModelPath,
    /// The probability from which sound counts as speech, in thousandths.
    pub threshold_permille: u32,
    pub min_silence_ms: u32,
    pub min_speech_ms: u32,
    pub max_speech_ms: u32,
    pub sample_rate: i32,
    pub num_threads: i32,
    pub provider: String,
    /// The audio that it holds at most, in seconds.
    pub buffer_seconds: u32,
}

/// What is to be loaded next.
pub enum Task {
    /// The model files.
    Files,
    Denoiser(DenoiserSettings),
    Asr(AsrSettings),
    Vad(VadSettings),
    /// The language model in this file.
    Refiner(ModelPath),
    /// Nothing: all is loaded.
    Ready,
    /// Nothing: this went wrong.
    Failed(String),
}

/// How far loading is.
#[derive(Clone, Copy, PartialEq, Eq, Structural, Debug)]
pub enum Stage {
    Files,
    Denoiser,
    Asr,
    Vad,
    Refiner,
    Ready,
    Failed,
}

/// The stage that follows where everything goes well.
pub open spec fn next_stage(stage: Stage) -> Stage {
    match stage {
        Stage::Files => Stage::Denoiser,
        Stage::Denoiser => Stage::Asr,
        Stage::Asr => Stage::Vad,
        Stage::Vad => Stage::Refiner,
        Stage::Refiner => Stage::Ready,
        Stage::Ready => Stage::Ready,
        Stage::Failed => Stage::Failed,
    }
}

/// What is said where the task of a stage failed with `reason`. The denoiser, the
/// recogniser and the detector give no reason, so none is said.
pub open spec fn complaint(stage: Stage, reason: Seq<char>) -> Seq<char> {
    match stage {
        Stage::Denoiser => "failed to create speech denoiser"@,
        Stage::Asr => "failed to create recognizer"@,
        Stage::Vad => "failed to create recognizer"@,
        _ => reason,
    }
}

/// The settings of the denoiser of `m`.
pub open spec fn is_denoiser(s: DenoiserSettings, m: Model) -> bool {
    &&& s.model@ == m.denoiser@
    &&& s.num_threads == 1
    &&& s.provider@ == "cpu"@
}

/// The settings of the recogniser of `m`.
pub open spec fn is_asr(s: AsrSettings, m: Model) -> bool {
    &&& s.conv_frontend@ == m.asr_conv_frontend@
    &&& s.encoder@ == m.asr_encoder@
    &&& s.decoder@ == m.asr_decoder@
    &&& s.tokenizer@ == m.asr_tokenizer@
    &&& s.max_new_tokens == 512
    &&& s.num_threads == 8
}

/// The settings of the voice activity detector of `m`.
pub open spec fn is_vad(s: VadSettings, m: Model) -> bool {
    &&& s.model@ == m.vad@
    &&& s.threshold_permille == 500
    &&& s.min_silence_ms == 250
    &&& s.min_speech_ms == 250
    &&& s.max_speech_ms == 5000
    &&& s.sample_rate == segments::TARGET_SAMPLE_RATE
    &&& s.num_threads == 1
    &&& s.provider@ == "cpu"@
    &&& s.buffer_seconds == 30
}

fn copy_path(path: &ModelPath) -> (r: ModelPath)
    ensures
        r@ == path@,
{
    ModelPath { dir: path.dir.clone(), name: path.name.clone() }
}

/// The loading of all models.
pub struct Loader {
    stage: Stage,
    model: Option<Model>,
    complaint: String,
}

impl Loader {
    /// How far it is.
    pub closed spec fn stage(self) -> Stage {
        self.stage
    }

    /// The model files, once they are known.
    pub closed spec fn model(self) -> Option<Model> {
        self.model
    }

    /// What went wrong.
    pub closed spec fn complaint(self) -> Seq<char> {
        self.complaint@
    }

    /// The model files are known from the second stage on.
    pub open spec fn wf(self) -> bool {
        self.stage() != Stage::Files && self.stage() != Stage::Failed ==> self.model() is Some
    }

    /// Nothing is loaded at first.
    pub fn new() -> (r: Loader)
        ensures
            r.wf(),
            r.stage() == Stage::Files,
            r.model() is None,
            r.complaint() == Seq::<char>::empty(),
    {
        Loader { stage: Stage::Files, model: None, complaint: String::new() }
    }

    /// What is to be loaded next.
    pub fn task(&self) -> (r: Task)
        requires
            self.wf(),
        ensures
            match self.stage() {
                Stage::Files => r is Files,
                Stage::Denoiser => r matches Task::Denoiser(s) && is_denoiser(
                    s,
                    self.model()->0,
                ),
                Stage::Asr => r matches Task::Asr(s) && is_asr(s, self.model()->0),
                Stage::Vad => r matches Task::Vad(s) && is_vad(s, self.model()->0),
                Stage::Refiner => r matches Task::Refiner(path) && path@ == self.model()->0.refiner@,
                Stage::Ready => r is Ready,
                Stage::Failed => r matches Task::Failed(message) && message@ == self.complaint(),
            },
    {
        let model = match &self.model {
            Some(model) => model,
            None => {
                return match self.stage {
                    Stage::Failed => Task::Failed(self.complaint.clone()),
                    _ => Task::Files,
                };
            },
        };
        match self.stage {
            Stage::Files => Task::Files,
            Stage::Denoiser => Task::Denoiser(
                DenoiserSettings {
                    model: copy_path(&model.denoiser),
                    num_threads: 1,
                    provider: "cpu".to_owned(),
                },
            ),
            Stage::Asr => Task::Asr(
                AsrSettings {
                    conv_frontend: copy_path(&model.asr_conv_frontend),
                    encoder: copy_path(&model.asr_encoder),
                    decoder: copy_path(&model.asr_decoder),
                    tokenizer: copy_path(&model.asr_tokenizer),
                    max_new_tokens: 512,
                    num_threads: 8,
                },
            ),
            Stage::Vad => Task::Vad(
                VadSettings {
                    model: copy_path(&model.vad),
                    threshold_permille: 500,
                    min_silence_ms: 250,
                    min_speech_ms: 250,
                    max_speech_ms: 5000,
                    sample_rate: segments::TARGET_SAMPLE_RATE as i32,
                    num_threads: 1,
                    provider: "cpu".to_owned(),
                    buffer_seconds: 30,
                },
            ),
            Stage::Refiner => Task::Refiner(copy_path(&model.refiner)),
            Stage::Ready => Task::Ready,
            Stage::Failed => Task::Failed(self.complaint.clone()),
        }
    }

    /// Takes the model files. Where they were not asked for, nothing changes.
    pub fn found(&mut self, model: Model)
        requires
            old(self).wf(),
        ensures
            final(self).wf(),
            old(self).stage() == Stage::Files ==> final(self).stage() == Stage::Denoiser && final(self).model() == Some(model) && final(self).complaint() == old(self).complaint(),
            old(self).stage() != Stage::Files ==> *final(self) == *old(self),
    {
        if self.stage == Stage::Files {
            self.model = Some(model);
            self.stage = Stage::Denoiser;
        }
    }

    /// Takes note that what was asked for is loaded. Where model files are waited for, or
    /// loading is over, nothing changes.
    pub fn loaded(&mut self)
        requires
            old(self).wf(),
        ensures
            final(self).wf(),
            final(self).model() == old(self).model(),
            final(self).complaint() == old(self).complaint(),
            final(self).stage() == if old(self).stage() == Stage::Files {
                Stage::Files
            } else {
                next_stage(old(self).stage())
            },
    {
        self.stage = match self.stage {
            Stage::Files => Stage::Files,
            Stage::Denoiser => Stage::Asr,
            Stage::Asr => Stage::Vad,
            Stage::Vad => Stage::Refiner,
            Stage::Refiner => Stage::Ready,
            Stage::Ready => Stage::Ready,
            Stage::Failed => Stage::Failed,
        };
    }

    /// Takes note that what was asked for could not be loaded. Where loading is over,
    /// nothing changes.
    pub fn failed(&mut self, reason: String)
        requires
            old(self).wf(),
        ensures
            final(self).wf(),
            old(self).stage() == Stage::Ready || old(self).stage() == Stage::Failed ==> *final(self)
                == *old(self),
            old(self).stage() != Stage::Ready && old(self).stage() != Stage::Failed ==> final(self).stage() == Stage::Failed && final(self).complaint() == complaint(
                old(self).stage(),
                reason@,
            ) && final(self).model() == old(self).model(),
    {
        match self.stage {
            Stage::Ready => {},
            Stage::Failed => {},
            Stage::Denoiser => {
                self.complaint = "failed to create speech denoiser".to_owned();
                self.stage = Stage::Failed;
            },
            Stage::Asr => {
                self.complaint = "failed to create recognizer".to_owned();
                self.stage = Stage::Failed;
            },
            Stage::Vad => {
                self.complaint = "failed to create recognizer".to_owned();
                self.stage = Stage::Failed;
            },
            _ => {
                self.complaint = reason;
                self.stage = Stage::Failed;
            },
        }
    }
}

/// The stage after `n` tasks that went well.
pub open spec fn stage_after(n: nat) -> Stage
    decreases n,
{
    if n == 0 {
        Stage::Files
    } else {
        next_stage(stage_after((n - 1) as nat))
    }
}

/// All is loaded after the files, the denoiser, the recogniser, the detector and the
/// refiner were, and no sooner.
pub proof fn lemma_ready_after_all(n: nat)
    ensures
        stage_after(n) == Stage::Ready <==> n >= 5,
    decreases n,
{
    reveal_with_fuel(stage_after, 6);
    if n > 5 {
        lemma_ready_after_all((n - 1) as nat);
    }
}

/// Models are loaded in the order in which they are used: the files are looked for first,
/// then come the denoiser, the recogniser and the detector, and the refiner comes last.
/// Where all is loaded, and where something failed, nothing follows.
pub proof fn lemma_loading_order()
    ensures
        seq![stage_after(0), stage_after(1), stage_after(2), stage_after(3), stage_after(4)]
            == seq![Stage::Files, Stage::Denoiser, Stage::Asr, Stage::Vad, Stage::Refiner],
        next_stage(Stage::Ready) == Stage::Ready,
        next_stage(Stage::Failed) == Stage::Failed,
{
    reveal_with_fuel(stage_after, 6);
}

/// Every part is loaded from its own file in the directory of its own download, wherever the
/// downloads went to.
pub proof fn lemma_parts_are_loaded_from_their_files(
    m: Model,
    dirs: Seq<Seq<char>>,
    denoiser: DenoiserSettings,
    asr: AsrSettings,
    vad: VadSettings,
)
    requires
        resolve::names_files(m, dirs),
        is_denoiser(denoiser, m),
        is_asr(asr, m),
        is_vad(vad, m),
    ensures
        denoiser.model@ == (dirs[0], "gtcrn_simple.onnx"@),
        asr.conv_frontend@ == (dirs[1], "conv_frontend.onnx"@),
        asr.encoder@ == (dirs[1], "encoder.int8.onnx"@),
        asr.decoder@ == (dirs[1], "decoder.int8.onnx"@),
        asr.tokenizer@ == (dirs[1], "tokenizer"@),
        vad.model@ == (dirs[2], "silero_vad_v5.onnx"@),
        m.refiner@ == (dirs[3], "Qwen3-4B-Q4_K_M.gguf"@),
        vad.sample_rate == 16_000,
{
}

/// A failure is told in the words of the part that failed, or with its own reason where the
/// files or the refiner failed.
pub proof fn lemma_complaints(stage: Stage, reason: Seq<char>)
    ensures
        complaint(stage, reason) == reason || complaint(stage, reason)
            == "failed to create speech denoiser"@ || complaint(stage, reason)
            == "failed to create recognizer"@,
        stage == Stage::Files || stage == Stage::Refiner ==> complaint(stage, reason) == reason,
        stage == Stage::Denoiser ==> complaint(stage, reason) == "failed to create speech denoiser"@,
        stage == Stage::Asr || stage == Stage::Vad ==> complaint(stage, reason)
            == "failed to create recognizer"@,
{
}

/// Whatever files the models are in: denoiser and detector have one thread each on the
/// processor, the recogniser has eight and writes at most 512 tokens. Sound counts as speech
/// where that is as likely as not, from a quarter of a second on, until it pauses for as long
/// or has gone on for five seconds; half a minute of audio is held for it.
pub proof fn lemma_settings(
    m: Model,
    denoiser: DenoiserSettings,
    asr: AsrSettings,
    vad: VadSettings,
)
    requires
        is_denoiser(denoiser, m),
        is_asr(asr, m),
        is_vad(vad, m),
    ensures
        denoiser.num_threads == 1 && denoiser.provider@ == "cpu"@,
        asr.num_threads == 8 && asr.max_new_tokens == 512,
        vad.num_threads == 1 && vad.provider@ == "cpu"@,
        2 * vad.threshold_permille == 1000,
        4 * vad.min_speech_ms == 1000,
        vad.min_silence_ms == vad.min_speech_ms,
        vad.max_speech_ms == 5 * 1000,
        2 * vad.buffer_seconds == 60,
{
}

} // verus!
