//! Setting up the language model.
//!
//! The model itself is outside of this library. A setup says what is to be done with it next
//! and is told what came of it, until the instructions stand in its cache.
use vstd::prelude::*;

use crate::refiner::generate;
use crate::refiner::prompt;
use crate::refiner::session;

verus! {

/// Layers of the model that run on the graphics processor: all of them.
pub const GPU_LAYERS: u32 = 999;

/// How far a setup is.
#[derive(Clone, Copy, PartialEq, Eq, Structural, Debug)]
pub enum Stage {
    Model,
    Template,
    Tokens,
    Context,
    Cache,
    Done,
    Failed,
}

/// What is to be done next.
pub enum Step {
    /// Load the model.
    LoadModel { gpu_layers: u32 },
    /// Read the chat template of the model.
    ReadTemplate,
    /// Turn this chat into tokens, without a turn of the model behind it.
    Tokenize { chat: Vec<prompt::Message> },
    /// Open a context of this many tokens.
    OpenContext { size: u32 },
    /// Read these tokens, with a batch that has room for `capacity` of them.
    Read { capacity: usize, batch: Vec<generate::BatchEntry> },
    /// Nothing: the model is set up.
    Done,
    /// Nothing: this went wrong.
    Failed(String),
}

/// What is said where a stage failed with `reason`.
pub open spec fn complaint(stage: Stage, reason: Seq<char>) -> Seq<char> {
    match stage {
        Stage::Model => "failed to load refiner model: "@ + reason,
        Stage::Template => "refiner model has no chat template: "@ + reason,
        _ => reason,
    }
}

/// The stage that follows where all goes well.
pub open spec fn next_stage(stage: Stage) -> Stage {
    match stage {
        Stage::Model => Stage::Template,
        Stage::Template => Stage::Tokens,
        Stage::Tokens => Stage::Context,
        Stage::Context => Stage::Cache,
        Stage::Cache => Stage::Done,
        Stage::Done => Stage::Done,
        Stage::Failed => Stage::Failed,
    }
}

/// The setup of a language model.
pub struct RefinerSetup {
    stage: Stage,
    system_tokens: Vec<i32>,
    complaint: String,
}

impl RefinerSetup {
    /// How far it is.
    pub closed spec fn stage(self) -> Stage {
        self.stage
    }

    /// The tokens of the instructions, once they are known.
    pub closed spec fn tokens(self) -> Seq<i32> {
        self.system_tokens@
    }

    /// What went wrong.
    pub closed spec fn complaint(self) -> Seq<char> {
        self.complaint@
    }

    /// The tokens of the instructions have positions that the model can count.
    pub open spec fn wf(self) -> bool {
        self.tokens().len() <= i32::MAX
    }

    /// Nothing is set up at first.
    pub fn new() -> (r: RefinerSetup)
        ensures
            r.wf(),
            r.stage() == Stage::Model,
            r.tokens() == Seq::<i32>::empty(),
            r.complaint() == Seq::<char>::empty(),
    {
        RefinerSetup { stage: Stage::Model, system_tokens: Vec::new(), complaint: String::new() }
    }

    /// What is to be done next.
    pub fn step(&self) -> (r: Step)
        requires
            self.wf(),
        ensures
            match self.stage() {
                Stage::Model => r == (Step::LoadModel { gpu_layers: GPU_LAYERS }),
                Stage::Template => r is ReadTemplate,
                Stage::Tokens => r matches Step::Tokenize { chat } && chat@.len() == 1
                    && chat@[0]@ == ("system"@, prompt::SYSTEM_PROMPT@),
                Stage::Context => r == (Step::OpenContext { size: session::CONTEXT_SIZE as u32 }),
                Stage::Cache => r matches Step::Read { capacity, batch } && batch@
                    == generate::batch_for(self.tokens(), 0) && capacity == if self.tokens().len()
                    == 0 {
                    1
                } else {
                    self.tokens().len()
                },
                Stage::Done => r is Done,
                Stage::Failed => r matches Step::Failed(message) && message@ == self.complaint(),
            },
    {
        match self.stage {
            Stage::Model => Step::LoadModel { gpu_layers: GPU_LAYERS },
            Stage::Template => Step::ReadTemplate,
            Stage::Tokens => {
                let mut chat: Vec<prompt::Message> = Vec::new();
                chat.push(prompt::system_message());
                Step::Tokenize { chat }
            },
            Stage::Context => Step::OpenContext { size: session::CONTEXT_SIZE as u32 },
            Stage::Cache => {
                let nothing: Vec<i32> = Vec::new();
                let plan = generate::plan_prefill(
                    self.system_tokens.as_slice(),
                    nothing.as_slice(),
                );
                Step::Read { capacity: plan.capacity, batch: plan.batch }
            },
            Stage::Done => Step::Done,
            Stage::Failed => Step::Failed(self.complaint.clone()),
        }
    }

    /// Takes the tokens of the instructions. Where they were not asked for, nothing changes.
    pub fn tokenized(&mut self, tokens: Vec<i32>)
        requires
            old(self).wf(),
            tokens@.len() <= i32::MAX,
        ensures
            final(self).wf(),
            old(self).stage() == Stage::Tokens ==> final(self).stage() == Stage::Context
                && final(self).tokens() == tokens@ && final(self).complaint() == old(self).complaint(),
            old(self).stage() != Stage::Tokens ==> *final(self) == *old(self),
    {
        if self.stage == Stage::Tokens {
            self.system_tokens = tokens;
            self.stage = Stage::Context;
        }
    }

    /// Takes note that what was asked for is done. Where tokens are waited for, or the setup
    /// is over, nothing changes.
    pub fn succeeded(&mut self)
        requires
            old(self).wf(),
        ensures
            final(self).wf(),
            final(self).tokens() == old(self).tokens(),
            final(self).complaint() == old(self).complaint(),
            final(self).stage() == if old(self).stage() == Stage::Tokens {
                Stage::Tokens
            } else {
                next_stage(old(self).stage())
            },
    {
        self.stage = match self.stage {
            Stage::Model => Stage::Template,
            Stage::Template => Stage::Tokens,
            Stage::Tokens => Stage::Tokens,
            Stage::Context => Stage::Cache,
            Stage::Cache => Stage::Done,
            Stage::Done => Stage::Done,
            Stage::Failed => Stage::Failed,
        };
    }

    /// Takes note that what was asked for could not be done. Where the setup is over,
    /// nothing changes.
    pub fn failed(&mut self, reason: String)
        requires
            old(self).wf(),
        ensures
            final(self).wf(),
            old(self).stage() == Stage::Done || old(self).stage() == Stage::Failed ==> *final(self)
                == *old(self),
            old(self).stage() != Stage::Done && old(self).stage() != Stage::Failed ==> final(
                self).stage() == Stage::Failed && final(self).tokens() == old(self).tokens()
                && final(self).complaint() == complaint(old(self).stage(), reason@),
    {
        match self.stage {
            Stage::Done => {},
            Stage::Failed => {},
            Stage::Model => {
                let mut complaint = "failed to load refiner model: ".to_owned();
                complaint.append(reason.as_str());
                self.complaint = complaint;
                self.stage = Stage::Failed;
            },
            Stage::Template => {
                let mut complaint = "refiner model has no chat template: ".to_owned();
                complaint.append(reason.as_str());
                self.complaint = complaint;
                self.stage = Stage::Failed;
            },
            _ => {
                self.complaint = reason;
                self.stage = Stage::Failed;
            },
        }
    }

    /// The tokens of the instructions, which stand in the cache once the model is set up.
    pub fn into_tokens(self) -> (r: Vec<i32>)
        ensures
            r@ == self.tokens(),
    {
        self.system_tokens
    }
}

/// The cache of a model that was set up and has since read `prompts` and written an answer
/// to each: the instructions at first, and then, prompt by prompt, what reading it as planned
/// and answering it leaves.
pub open spec fn cache_after(system_tokens: Seq<i32>, prompts: Seq<(Seq<i32>, Seq<i32>)>) -> Seq<
    i32,
>
    decreases prompts.len(),
{
    if prompts.len() == 0 {
        generate::batch_tokens(generate::batch_for(system_tokens, 0))
    } else {
        let before = cache_after(system_tokens, prompts.drop_last());
        generate::cache_read(before, prompts.last().0, system_tokens) + prompts.last().1
    }
}

/// However many prompts a model has answered: as long as every prompt begins with the
/// instructions, reading the next one as planned leaves exactly that prompt in the cache.
pub proof fn lemma_cache_holds_the_prompt(
    system_tokens: Seq<i32>,
    prompts: Seq<(Seq<i32>, Seq<i32>)>,
    tokens: Seq<i32>,
)
    requires
        forall|i: int|
            0 <= i < prompts.len() ==> generate::begins_with(
                (#[trigger] prompts[i]).0,
                system_tokens,
            ) && prompts[i].0.len() <= i32::MAX,
        tokens.len() <= i32::MAX,
    ensures
        generate::begins_with(cache_after(system_tokens, prompts), system_tokens),
        generate::cache_read(cache_after(system_tokens, prompts), tokens, system_tokens) == tokens,
    decreases prompts.len(),
{
    let cache = cache_after(system_tokens, prompts);
    if prompts.len() == 0 {
        assert(cache == system_tokens);
        assert(cache.take(system_tokens.len() as int) == system_tokens);
    } else {
        let head = prompts.drop_last();
        let last = prompts.last();
        assert forall|i: int| 0 <= i < head.len() implies generate::begins_with(
            (#[trigger] head[i]).0,
            system_tokens,
        ) && head[i].0.len() <= i32::MAX by {
            assert(head[i] == prompts[i]);
        }
        assert(prompts[prompts.len() - 1] == last);
        lemma_cache_holds_the_prompt(system_tokens, head, last.0);
        assert(cache == last.0 + last.1);
        assert(cache.take(system_tokens.len() as int) == last.0.take(system_tokens.len() as int));
    }
    generate::lemma_prefill_leaves_prompt(tokens, system_tokens, cache);
}

/// The stage after `n` things that went well.
pub open spec fn stage_after(n: nat) -> Stage
    decreases n,
{
    if n == 0 {
        Stage::Model
    } else {
        next_stage(stage_after((n - 1) as nat))
    }
}

/// The model is loaded, its template read, the instructions turned into tokens, a context
/// opened, and the instructions read into it, in this order; only then is it set up. A setup
/// that is over stays so.
pub proof fn lemma_setup_order(n: nat)
    ensures
        seq![stage_after(0), stage_after(1), stage_after(2), stage_after(3), stage_after(4)]
            == seq![Stage::Model, Stage::Template, Stage::Tokens, Stage::Context, Stage::Cache],
        stage_after(n) == Stage::Done <==> n >= 5,
        next_stage(Stage::Failed) == Stage::Failed,
    decreases n,
{
    reveal_with_fuel(stage_after, 6);
    if n > 5 {
        lemma_setup_order((n - 1) as nat);
    }
}

/// Whatever goes wrong, its reason is told whole; where the model or its template is missing,
/// behind words that say so.
pub proof fn lemma_reasons_are_told(stage: Stage, reason: Seq<char>)
    ensures
        complaint(stage, reason).len() >= reason.len(),
        complaint(stage, reason).skip(complaint(stage, reason).len() - reason.len()) == reason,
        stage == Stage::Model ==> complaint(stage, reason).take(
            complaint(stage, reason).len() - reason.len(),
        ) == "failed to load refiner model: "@,
        stage == Stage::Template ==> complaint(stage, reason).take(
            complaint(stage, reason).len() - reason.len(),
        ) == "refiner model has no chat template: "@,
        stage != Stage::Model && stage != Stage::Template ==> complaint(stage, reason) == reason,
{
    let told = complaint(stage, reason);
    assert(told.skip(told.len() - reason.len()) =~= reason);
    if stage == Stage::Model {
        assert(told.take(told.len() - reason.len()) =~= "failed to load refiner model: "@);
    }
    if stage == Stage::Template {
        assert(told.take(told.len() - reason.len()) =~= "refiner model has no chat template: "@);
    }
}

} // verus!
