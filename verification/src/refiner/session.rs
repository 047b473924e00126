//! The dialogue with the language model that refines one transcript.
//!
//! The model works outside of this library. A session says what the model is to do next and
//! is told what came of it, until it holds the refined text or the reason why there is none.
use vstd::prelude::*;

use crate::refiner::prompt;
use crate::refiner::split;
use crate::text;

verus! {

/// Tokens that the context of the model holds.
pub const CONTEXT_SIZE: usize = 8192;

/// Tokens that one answer of the model holds at most.
pub const MAX_NEW_TOKENS_CAP: usize = 2048;

/// Tokens by which an answer may exceed its input.
pub const ANSWER_SLACK: usize = 64;

/// Tokens of the context that are kept free.
pub const OUTPUT_MARGIN: usize = 128;

/// Characters of the refined text that the next window is shown.
pub const TAIL_CHARS: usize = 200;

/// Why a transcript could not be refined.
pub enum RefineError {
    /// The transcript holds nothing but white space.
    EmptyInput,
    /// A window exceeds the context of the model and cannot be cut further.
    DoesNotFit,
    /// The model wrote nothing but white space.
    EmptyOutput,
    /// The model failed, with this message.
    Model(String),
}

/// The model of a `RefineError`.
pub enum Fault {
    EmptyInput,
    DoesNotFit,
    EmptyOutput,
    Model(Seq<char>),
}

impl View for RefineError {
    type V = Fault;

    open spec fn view(&self) -> Fault {
        match self {
            RefineError::EmptyInput => Fault::EmptyInput,
            RefineError::DoesNotFit => Fault::DoesNotFit,
            RefineError::EmptyOutput => Fault::EmptyOutput,
            RefineError::Model(message) => Fault::Model(message@),
        }
    }
}

impl Fault {
    /// The words for this fault.
    pub open spec fn message(self) -> Seq<char> {
        match self {
            Fault::EmptyInput => "refiner received empty content"@,
            Fault::DoesNotFit => "refiner window does not fit context window"@,
            Fault::EmptyOutput => "refiner returned empty output"@,
            Fault::Model(message) => message,
        }
    }
}

impl RefineError {
    /// The words for this error.
    pub fn message(&self) -> (r: String)
        ensures
            r@ == self@.message(),
    {
        match self {
            RefineError::EmptyInput => "refiner received empty content".to_owned(),
            RefineError::DoesNotFit => "refiner window does not fit context window".to_owned(),
            RefineError::EmptyOutput => "refiner returned empty output".to_owned(),
            RefineError::Model(message) => message.clone(),
        }
    }
}

/// The model of a result.
pub open spec fn outcome(r: Result<String, RefineError>) -> Result<Seq<char>, Fault> {
    match r {
        Ok(t) => Ok(t@),
        Err(e) => Err(e@),
    }
}

/// A refined text is modelled by all its characters, a failure of the model by its words, and
/// every error has words: its own.
pub proof fn lemma_outcome(r: Result<String, RefineError>)
    ensures
        r matches Ok(t) ==> outcome(r) == Ok::<Seq<char>, Fault>(t@),
        r is Err <==> outcome(r) is Err,
        r matches Err(RefineError::Model(message)) ==> outcome(r) == Err::<Seq<char>, Fault>(
            Fault::Model(message@),
        ) && Fault::Model(message@).message() == message@,
        r matches Err(RefineError::EmptyInput) ==> outcome(r) == Err::<Seq<char>, Fault>(
            Fault::EmptyInput,
        ),
        r matches Err(RefineError::DoesNotFit) ==> outcome(r) == Err::<Seq<char>, Fault>(
            Fault::DoesNotFit,
        ),
        r matches Err(RefineError::EmptyOutput) ==> outcome(r) == Err::<Seq<char>, Fault>(
            Fault::EmptyOutput,
        ),
{
}

/// How a language model answers.
pub struct LanguageModel {
    /// The tokens of the whole prompt, and of the window alone, for a window and the text
    /// before it.
    pub measure: spec_fn(Seq<char>, Seq<char>) -> Result<(nat, nat), Seq<char>>,
    /// What the model writes, for a window, the text before it, and a number of tokens.
    pub generate: spec_fn(Seq<char>, Seq<char>, nat) -> Result<Seq<char>, Seq<char>>,
}

/// The tokens that an answer to a window of `content_tokens` tokens may take.
pub open spec fn answer_budget(content_tokens: nat) -> nat {
    if content_tokens + ANSWER_SLACK < MAX_NEW_TOKENS_CAP {
        content_tokens + ANSWER_SLACK as nat
    } else {
        MAX_NEW_TOKENS_CAP as nat
    }
}

/// Whether a prompt, the answer to it and the margin fit into the context.
pub open spec fn fits_context(prompt_tokens: nat, budget: nat) -> bool {
    prompt_tokens + budget + OUTPUT_MARGIN <= CONTEXT_SIZE
}

/// What is kept of an answer of the model.
pub open spec fn cleaned(answer: Seq<char>) -> Seq<char> {
    text::trimmed(split::without_reasoning(answer))
}

/// The refined form of one window, where `before` is the end of the text before it: what
/// the model answers, or, where prompt and answer exceed the context, the two halves of the
/// window refined one after the other.
pub open spec fn refined_window(
    m: LanguageModel,
    content: Seq<char>,
    before: Seq<char>,
) -> Result<Seq<char>, Fault>
    decreases content.len(),
{
    let c = text::trimmed(content);
    proof {
        text::lemma_trimmed(content);
        split::lemma_halves(c);
    }
    if c.len() == 0 {
        Ok(Seq::empty())
    } else {
        match (m.measure)(c, before) {
            Err(e) => Err(Fault::Model(e)),
            Ok((prompt_tokens, content_tokens)) => {
                let budget = answer_budget(content_tokens);
                if fits_context(prompt_tokens, budget) {
                    match (m.generate)(c, before, budget) {
                        Err(e) => Err(Fault::Model(e)),
                        Ok(answer) => Ok(cleaned(answer)),
                    }
                } else {
                    match split::halves(c) {
                        None => Err(Fault::DoesNotFit),
                        Some((left, right)) => match refined_window(m, left, before) {
                            Err(e) => Err(e),
                            Ok(l) => match refined_window(
                                m,
                                right,
                                split::tail(before + l, TAIL_CHARS as nat),
                            ) {
                                Err(e) => Err(e),
                                Ok(r) => Ok(l + r),
                            },
                        },
                    }
                }
            },
        }
    }
}

/// Whether a space belongs between two characters that are put together.
pub open spec fn needs_space(last: char, first: char) -> bool {
    &&& (last as int) < 128
    &&& (first as int) < 128
    &&& !text::white_space(last)
    &&& !text::white_space(first)
}

/// `output` with the refined form of the next window behind it.
pub open spec fn joined(output: Seq<char>, part: Seq<char>) -> Seq<char> {
    if output.len() > 0 && part.len() > 0 && needs_space(output.last(), part[0]) {
        output.push(' ') + part
    } else {
        output + part
    }
}

/// What a session ends with, once every window is refined.
pub open spec fn finished(output: Seq<char>) -> Result<Seq<char>, Fault> {
    let t = text::trimmed(output);
    if t.len() == 0 {
        Err(Fault::EmptyOutput)
    } else {
        Ok(t)
    }
}

/// `output` with the refined forms of `rest` behind it, one window after the other.
pub open spec fn refined_rest(
    m: LanguageModel,
    rest: Seq<Seq<char>>,
    output: Seq<char>,
) -> Result<Seq<char>, Fault>
    decreases rest.len(),
{
    if rest.len() == 0 {
        finished(output)
    } else {
        match refined_window(m, rest[0], split::tail(output, TAIL_CHARS as nat)) {
            Err(e) => Err(e),
            Ok(part) => refined_rest(m, rest.drop_first(), joined(output, part)),
        }
    }
}

/// The refined form of a transcript.
pub open spec fn refined(m: LanguageModel, content: Seq<char>) -> Result<Seq<char>, Fault> {
    if text::trimmed(content).len() == 0 {
        Err(Fault::EmptyInput)
    } else {
        refined_rest(m, split::windows(content), Seq::empty())
    }
}

/// What a session waits for.
pub enum StageView {
    /// The token counts of a window that follows `before`.
    Measure { content: Seq<char>, before: Seq<char> },
    /// The answer to that window.
    Generate { content: Seq<char>, before: Seq<char>, budget: nat },
    /// Nothing more.
    Done(Result<Seq<char>, Fault>),
}

/// What becomes of a refined piece of a window that was cut in two.
pub enum FrameView {
    /// It is the left half: the right one is next.
    Left { right: Seq<char>, before: Seq<char> },
    /// It is the right half, and this the refined left one.
    Right { left: Seq<char> },
}

/// What a session has still to do behind the piece at hand, and what it has done.
pub struct Agenda {
    /// The cuts that lead to the piece at hand, the innermost last.
    pub frames: Seq<FrameView>,
    /// The windows that are still to come.
    pub windows: Seq<Seq<char>>,
    /// The refined form of the windows that are done.
    pub output: Seq<char>,
}

/// The model of a session.
pub struct SessionView {
    pub stage: StageView,
    pub agenda: Agenda,
}

/// A session that ended with `r`.
pub open spec fn done(r: Result<Seq<char>, Fault>) -> SessionView {
    SessionView {
        stage: StageView::Done(r),
        agenda: Agenda { frames: Seq::empty(), windows: Seq::empty(), output: Seq::empty() },
    }
}

/// How many pieces the cuts still have to hand on.
pub open spec fn weight(frames: Seq<FrameView>) -> nat
    decreases frames.len(),
{
    if frames.len() == 0 {
        0
    } else {
        weight(frames.drop_last()) + match frames.last() {
            FrameView::Left { .. } => 2nat,
            FrameView::Right { .. } => 1nat,
        }
    }
}

impl Agenda {
    /// The session with this agenda after it turned to the piece `content`, which follows
    /// `before`.
    pub open spec fn enter(self, content: Seq<char>, before: Seq<char>) -> SessionView
        decreases self.windows.len(), weight(self.frames), 1nat,
    {
        let c = text::trimmed(content);
        if c.len() == 0 {
            self.deliver(Seq::empty())
        } else {
            SessionView { stage: StageView::Measure { content: c, before }, agenda: self }
        }
    }

    /// The session with this agenda after the piece at hand was refined to `part`.
    pub open spec fn deliver(self, part: Seq<char>) -> SessionView
        decreases self.windows.len(), weight(self.frames), 0nat,
    {
        if self.frames.len() > 0 {
            let outer = self.frames.drop_last();
            match self.frames.last() {
                FrameView::Left { right, before } => {
                    proof {
                        assert(outer.push(FrameView::Right { left: part }).drop_last() == outer);
                    }
                    Agenda { frames: outer.push(FrameView::Right { left: part }), ..self }.enter(
                        right,
                        split::tail(before + part, TAIL_CHARS as nat),
                    )
                },
                FrameView::Right { left } => Agenda { frames: outer, ..self }.deliver(left + part),
            }
        } else {
            let output = joined(self.output, part);
            if self.windows.len() == 0 {
                done(finished(output))
            } else {
                Agenda { windows: self.windows.drop_first(), output, ..self }.enter(
                    self.windows[0],
                    split::tail(output, TAIL_CHARS as nat),
                )
            }
        }
    }
}

impl SessionView {
    /// The session after the model counted the tokens of the window at hand.
    pub open spec fn measured(self, prompt_tokens: nat, content_tokens: nat) -> SessionView {
        match self.stage {
            StageView::Measure { content, before } => {
                let budget = answer_budget(content_tokens);
                if fits_context(prompt_tokens, budget) {
                    SessionView { stage: StageView::Generate { content, before, budget }, ..self }
                } else {
                    match split::halves(content) {
                        None => done(Err(Fault::DoesNotFit)),
                        Some((left, right)) => Agenda {
                            frames: self.agenda.frames.push(FrameView::Left { right, before }),
                            ..self.agenda
                        }.enter(left, before),
                    }
                }
            },
            _ => self,
        }
    }

    /// The session after the model answered the window at hand.
    pub open spec fn generated(self, answer: Seq<char>) -> SessionView {
        match self.stage {
            StageView::Generate { .. } => self.agenda.deliver(cleaned(answer)),
            _ => self,
        }
    }

    /// The session after the model failed.
    pub open spec fn failed(self, message: Seq<char>) -> SessionView {
        match self.stage {
            StageView::Done(_) => self,
            _ => done(Err(Fault::Model(message))),
        }
    }

    /// The session that refines `content`, before the model did anything.
    pub open spec fn begun(content: Seq<char>) -> SessionView {
        if text::trimmed(content).len() == 0 {
            done(Err(Fault::EmptyInput))
        } else {
            let all = split::windows(content);
            Agenda {
                frames: Seq::empty(),
                windows: all.drop_first(),
                output: Seq::empty(),
            }.enter(all[0], Seq::empty())
        }
    }

    /// The session after the model `m` did what it waits for.
    pub open spec fn advanced(self, m: LanguageModel) -> SessionView {
        match self.stage {
            StageView::Measure { content, before } => match (m.measure)(content, before) {
                Ok((prompt_tokens, content_tokens)) => self.measured(
                    prompt_tokens,
                    content_tokens,
                ),
                Err(e) => self.failed(e),
            },
            StageView::Generate { content, before, budget } => match (m.generate)(
                content,
                before,
                budget,
            ) {
                Ok(answer) => self.generated(answer),
                Err(e) => self.failed(e),
            },
            StageView::Done(_) => self,
        }
    }

    /// The session after the model `m` did `steps` things that it waited for.
    pub open spec fn run(self, m: LanguageModel, steps: nat) -> SessionView
        decreases steps,
    {
        if steps == 0 {
            self
        } else {
            self.advanced(m).run(m, (steps - 1) as nat)
        }
    }

    /// The pieces that the model `m` answers while it does `steps` things that the session
    /// waits for.
    pub open spec fn answered(self, m: LanguageModel, steps: nat) -> Seq<Seq<char>>
        decreases steps,
    {
        if steps == 0 {
            Seq::empty()
        } else {
            let rest = self.advanced(m).answered(m, (steps - 1) as nat);
            match self.stage {
                StageView::Generate { content, .. } => seq![content] + rest,
                _ => rest,
            }
        }
    }
}

impl SessionView {
    /// What the model `m` answers while it does `steps` things that the session waits for.
    pub open spec fn replies(self, m: LanguageModel, steps: nat) -> Seq<Seq<char>>
        decreases steps,
    {
        if steps == 0 {
            Seq::empty()
        } else {
            let rest = self.advanced(m).replies(m, (steps - 1) as nat);
            match self.stage {
                StageView::Generate { content, before, budget } => match (m.generate)(
                    content,
                    before,
                    budget,
                ) {
                    Ok(answer) => seq![answer] + rest,
                    Err(_) => rest,
                },
                _ => rest,
            }
        }
    }
}

/// What the model wrote behind the last end of a reasoning, or all of it where there is none.
pub open spec fn written(answer: Seq<char>) -> Seq<char> {
    match text::after_last(answer, "</think>"@) {
        Some(rest) => rest,
        None => answer,
    }
}

/// What the model wrote behind its reasoning, answer by answer.
pub open spec fn all_written(answers: Seq<Seq<char>>) -> Seq<Seq<char>> {
    Seq::new(answers.len(), |i: int| written(answers[i]))
}

proof fn lemma_all_written_add(a: Seq<Seq<char>>, b: Seq<Seq<char>>)
    ensures
        said(all_written(a + b)) == said(all_written(a)) + said(all_written(b)),
{
    assert(all_written(a + b) =~= all_written(a) + all_written(b));
    lemma_said_add(all_written(a), all_written(b));
}

/// Of an answer everything is kept that the model wrote behind the last end of a reasoning,
/// but for the white space around it, and nothing else is.
pub proof fn lemma_answer_is_kept(answer: Seq<char>)
    ensures
        text::stripped(cleaned(answer), written(answer)),
        text::dense(cleaned(answer)) == text::dense(written(answer)),
{
    text::lemma_trimmed_is_stripped(written(answer));
    text::lemma_dense_trimmed(written(answer));
}

/// Two refined parts are put together without a change to either. A space comes between them
/// where the first ends and the second begins with a character of ASCII that is no white
/// space, and nothing comes between them otherwise.
pub proof fn lemma_parts_are_joined(output: Seq<char>, part: Seq<char>)
    ensures
        joined(output, part) == output + part || joined(output, part) == output + seq![' '] + part,
        joined(output, part) == output + seq![' '] + part <==> output.len() > 0 && part.len() > 0
            && (output.last() as int) < 128 && (part[0] as int) < 128 && !text::white_space(
            output.last(),
        ) && !text::white_space(part[0]),
        text::dense(joined(output, part)) == text::dense(output) + text::dense(part),
{
    let gap = seq![' '];
    assert(output.push(' ') + part =~= output + gap + part);
    assert((output + part).len() != (output + gap + part).len());
    text::lemma_dense_add(output, part);
    text::lemma_dense_add(output + gap, part);
    text::lemma_dense_add(output, gap);
    assert(text::dense(gap) =~= Seq::<char>::empty()) by {
        reveal(Seq::filter);
        assert(gap.drop_last() =~= Seq::<char>::empty());
        assert(text::dense(gap.drop_last()) =~= Seq::<char>::empty());
    }
    assert(text::dense(output) + Seq::<char>::empty() =~= text::dense(output));
}

/// How one window is refined, where `c` is the window without the white space around it. A
/// blank one comes to nothing. Any other is counted as it is, with the text before it; where
/// prompt, answer and margin fit into the context it is answered as it is, and of the answer
/// is kept what stands behind the reasoning; where they do not, its halves are refined, the
/// right one with the end of what stands before it in view, and put together.
pub proof fn lemma_window_is_refined(
    m: LanguageModel,
    content: Seq<char>,
    before: Seq<char>,
    c: Seq<char>,
    budget: nat,
    shown: Seq<char>,
)
    requires
        text::stripped(c, content),
    ensures
        c.len() == 0 ==> refined_window(m, content, before) == Ok::<Seq<char>, Fault>(Seq::empty()),
        c.len() > 0 ==> match (m.measure)(c, before) {
            Err(e) => refined_window(m, content, before) == Err::<Seq<char>, Fault>(
                Fault::Model(e),
            ),
            Ok((prompt_tokens, content_tokens)) => {
                budget <= content_tokens + ANSWER_SLACK && budget <= MAX_NEW_TOKENS_CAP && (budget
                    == content_tokens + ANSWER_SLACK || budget == MAX_NEW_TOKENS_CAP) ==> {
                    if prompt_tokens + budget + OUTPUT_MARGIN <= CONTEXT_SIZE {
                        match (m.generate)(c, before, budget) {
                            Err(e) => refined_window(m, content, before) == Err::<
                                Seq<char>,
                                Fault,
                            >(Fault::Model(e)),
                            Ok(answer) => refined_window(m, content, before) matches Ok(part)
                                && text::stripped(part, written(answer)),
                        }
                    } else {
                        match split::halves(c) {
                            None => refined_window(m, content, before) == Err::<Seq<char>, Fault>(
                                Fault::DoesNotFit,
                            ),
                            Some((left, right)) => match refined_window(m, left, before) {
                                Err(e) => refined_window(m, content, before) == Err::<
                                    Seq<char>,
                                    Fault,
                                >(e),
                                Ok(l) => is_end_of(shown, before + l) ==> refined_window(
                                    m,
                                    content,
                                    before,
                                ) == match refined_window(m, right, shown) {
                                    Err(e) => Err::<Seq<char>, Fault>(e),
                                    Ok(r) => Ok(l + r),
                                },
                            },
                        }
                    }
                }
            },
        },
{
    text::lemma_stripped_is_trimmed(c, content);
    if let Ok((prompt_tokens, content_tokens)) = (m.measure)(c, before) {
        if let Ok(answer) = (m.generate)(c, before, answer_budget(content_tokens)) {
            lemma_answer_is_kept(answer);
        }
        if let Some((left, right)) = split::halves(c) {
            if let Ok(l) = refined_window(m, left, before) {
                if is_end_of(shown, before + l) {
                    lemma_end_is_tail(shown, before + l);
                }
            }
        }
    }
}

/// Whether `shown` is the end of `output` that the next window is shown: its last characters,
/// as many as are shown, or all where there are fewer.
pub open spec fn is_end_of(shown: Seq<char>, output: Seq<char>) -> bool {
    &&& shown.len() <= output.len()
    &&& shown == output.skip(output.len() - shown.len())
    &&& shown.len() == TAIL_CHARS || shown.len() < TAIL_CHARS && shown.len() == output.len()
}

proof fn lemma_end_is_tail(shown: Seq<char>, output: Seq<char>)
    requires
        is_end_of(shown, output),
    ensures
        shown == split::tail(output, TAIL_CHARS as nat),
{
    split::lemma_tail(output, TAIL_CHARS as nat);
}

/// Windows are refined one after the other: each with the end of the text before it in view,
/// and put behind that text. The first fault ends it.
pub proof fn lemma_next_window(
    m: LanguageModel,
    rest: Seq<Seq<char>>,
    output: Seq<char>,
    shown: Seq<char>,
)
    requires
        rest.len() > 0,
        is_end_of(shown, output),
    ensures
        refined_rest(m, rest, output) == match refined_window(m, rest[0], shown) {
            Err(e) => Err::<Seq<char>, Fault>(e),
            Ok(part) => refined_rest(m, rest.drop_first(), joined(output, part)),
        },
{
    lemma_end_is_tail(shown, output);
}

/// Behind the last window the whole text is handed over without the white space around it; a
/// blank one is a fault. A transcript is refined from its first window on, with no text
/// before it, unless it is blank.
pub proof fn lemma_first_and_last(
    m: LanguageModel,
    output: Seq<char>,
    t: Seq<char>,
    content: Seq<char>,
)
    requires
        text::stripped(t, output),
    ensures
        refined_rest(m, Seq::empty(), output) == if t.len() > 0 {
            Ok::<Seq<char>, Fault>(t)
        } else {
            Err::<Seq<char>, Fault>(Fault::EmptyOutput)
        },
        (exists|i: int| 0 <= i < content.len() && !text::white_space(#[trigger] content[i]))
            ==> refined(m, content) == refined_rest(m, split::windows(content), Seq::empty()),
        (forall|i: int| 0 <= i < content.len() ==> text::white_space(#[trigger] content[i]))
            ==> refined(m, content) == Err::<Seq<char>, Fault>(Fault::EmptyInput),
{
    text::lemma_stripped_is_trimmed(t, output);
    text::lemma_trimmed(content);
}

/// Whether a session that ends with `r` has put every window to the model and has had an
/// answer to each.
pub open spec fn answered_throughout(r: Result<Seq<char>, Fault>) -> bool {
    match r {
        Err(Fault::DoesNotFit) => false,
        Err(Fault::Model(_)) => false,
        _ => true,
    }
}

/// What a session that ends with `r` says in the end.
pub open spec fn result_says(r: Result<Seq<char>, Fault>) -> Seq<char> {
    match r {
        Ok(t) => text::dense(t),
        Err(_) => Seq::empty(),
    }
}

/// What `pieces` say together.
pub open spec fn said(pieces: Seq<Seq<char>>) -> Seq<char> {
    text::dense(text::concatenated(pieces))
}

proof fn lemma_said_add(a: Seq<Seq<char>>, b: Seq<Seq<char>>)
    ensures
        said(a + b) == said(a) + said(b),
{
    text::lemma_concatenated_add(a, b);
    text::lemma_dense_add(text::concatenated(a), text::concatenated(b));
}

proof fn lemma_said_one(piece: Seq<char>)
    ensures
        said(seq![piece]) == text::dense(piece),
{
    let one = seq![piece];
    assert(one.drop_first() == Seq::<Seq<char>>::empty());
    assert(text::concatenated(one.drop_first()) == Seq::<char>::empty());
    assert(text::concatenated(one) == piece);
}

proof fn lemma_said_nothing()
    ensures
        said(Seq::empty()) == Seq::<char>::empty(),
        text::dense(Seq::empty()) == Seq::<char>::empty(),
{
    reveal(Seq::filter);
    assert(text::concatenated(Seq::<Seq<char>>::empty()) == Seq::<char>::empty());
}

proof fn lemma_run_add(v: SessionView, m: LanguageModel, a: nat, b: nat)
    ensures
        v.run(m, a).run(m, b) == v.run(m, a + b),
        v.answered(m, a + b) == v.answered(m, a) + v.run(m, a).answered(m, b),
        v.replies(m, a + b) == v.replies(m, a) + v.run(m, a).replies(m, b),
    decreases a,
{
    if a > 0 {
        lemma_run_add(v.advanced(m), m, (a - 1) as nat, b);
        assert(((a + b) - 1) as nat == ((a - 1) as nat) + b);
        let first = v.advanced(m).answered(m, (a - 1) as nat);
        let second = v.run(m, a).answered(m, b);
        let heard = v.advanced(m).replies(m, (a - 1) as nat);
        let later = v.run(m, a).replies(m, b);
        if let StageView::Generate { content, before, budget } = v.stage {
            assert(seq![content] + (first + second) == seq![content] + first + second);
            if let Ok(answer) = (m.generate)(content, before, budget) {
                assert(seq![answer] + (heard + later) == seq![answer] + heard + later);
            }
        }
    } else {
        assert(v.replies(m, 0) + v.replies(m, b) == v.replies(m, b));
        assert(v.answered(m, 0) + v.answered(m, b) == v.answered(m, b));
    }
}

/// A session that turns to a piece comes to deliver the refined form of that piece, or ends
/// with the fault that refining it meets. Where there is none, the model has answered all
/// that the piece says, and all that it wrote behind its reasoning is in the refined form.
proof fn lemma_piece_runs(
    agenda: Agenda,
    m: LanguageModel,
    content: Seq<char>,
    before: Seq<char>,
) -> (steps: nat)
    ensures
        agenda.enter(content, before).run(m, steps) == match refined_window(m, content, before) {
            Ok(part) => agenda.deliver(part),
            Err(e) => done(Err(e)),
        },
        refined_window(m, content, before) is Ok ==> said(
            agenda.enter(content, before).answered(m, steps),
        ) == text::dense(content),
        refined_window(m, content, before) matches Ok(part) ==> said(
            all_written(agenda.enter(content, before).replies(m, steps)),
        ) == text::dense(part),
    decreases content.len(),
{
    let c = text::trimmed(content);
    text::lemma_trimmed(content);
    text::lemma_dense_trimmed(content);
    split::lemma_halves(c);
    lemma_said_nothing();
    let v0 = agenda.enter(content, before);
    if c.len() == 0 {
        assert(c == Seq::<char>::empty());
        assert(all_written(v0.replies(m, 0)) =~= Seq::<Seq<char>>::empty());
        0
    } else {
        let v1 = v0.advanced(m);
        assert(v0.run(m, 1) == v1.run(m, 0));
        match (m.measure)(c, before) {
            Err(e) => 1,
            Ok((prompt_tokens, content_tokens)) => {
                if fits_context(prompt_tokens, answer_budget(content_tokens)) {
                    assert(v0.run(m, 2) == v1.run(m, 1));
                    assert(v1.run(m, 1) == v1.advanced(m).run(m, 0));
                    assert(v1.advanced(m).answered(m, 0) == Seq::<Seq<char>>::empty());
                    assert(v1.answered(m, 1) == seq![c]);
                    assert(v0.answered(m, 2) == v1.answered(m, 1));
                    lemma_said_one(c);
                    if let Ok(answer) = (m.generate)(c, before, answer_budget(content_tokens)) {
                        assert(v1.advanced(m).replies(m, 0) == Seq::<Seq<char>>::empty());
                        assert(v1.replies(m, 1) == seq![answer]);
                        assert(v0.replies(m, 2) == v1.replies(m, 1));
                        assert(all_written(seq![answer]) =~= seq![written(answer)]);
                        lemma_said_one(written(answer));
                        lemma_answer_is_kept(answer);
                    }
                    2
                } else {
                    match split::halves(c) {
                        None => 1,
                        Some((left, right)) => {
                            let inner = Agenda {
                                frames: agenda.frames.push(FrameView::Left { right, before }),
                                ..agenda
                            };
                            let a = lemma_piece_runs(inner, m, left, before);
                            lemma_run_add(v0, m, 1, a);
                            assert(v1.answered(m, 0) == Seq::<Seq<char>>::empty());
                            assert(v0.answered(m, 1) == Seq::<Seq<char>>::empty());
                            assert(v0.answered(m, 1 + a) == v1.answered(m, a));
                            assert(v1.replies(m, 0) == Seq::<Seq<char>>::empty());
                            assert(v0.replies(m, 1) == Seq::<Seq<char>>::empty());
                            assert(v0.replies(m, 1 + a) == v1.replies(m, a));
                            match refined_window(m, left, before) {
                                Err(e) => 1 + a,
                                Ok(l) => {
                                    let outer = Agenda {
                                        frames: agenda.frames.push(FrameView::Right { left: l }),
                                        ..agenda
                                    };
                                    assert(inner.frames.drop_last() == agenda.frames);
                                    assert(outer.frames.drop_last() == agenda.frames);
                                    let shown = split::tail(before + l, TAIL_CHARS as nat);
                                    let b = lemma_piece_runs(outer, m, right, shown);
                                    lemma_run_add(v0, m, 1 + a, b);
                                    lemma_said_add(
                                        v0.answered(m, 1 + a),
                                        v0.run(m, 1 + a).answered(m, b),
                                    );
                                    lemma_all_written_add(
                                        v0.replies(m, 1 + a),
                                        v0.run(m, 1 + a).replies(m, b),
                                    );
                                    if let Ok(r) = refined_window(m, right, shown) {
                                        text::lemma_dense_add(l, r);
                                    }
                                    1 + a + b
                                },
                            }
                        },
                    }
                }
            },
        }
    }
}

proof fn lemma_rest_runs(
    m: LanguageModel,
    rest: Seq<Seq<char>>,
    output: Seq<char>,
) -> (steps: nat)
    requires
        rest.len() > 0,
    ensures
        (Agenda { frames: Seq::empty(), windows: rest.drop_first(), output }).enter(
            rest[0],
            split::tail(output, TAIL_CHARS as nat),
        ).run(m, steps) == done(refined_rest(m, rest, output)),
        answered_throughout(refined_rest(m, rest, output)) ==> said(
            (Agenda { frames: Seq::empty(), windows: rest.drop_first(), output }).enter(
                rest[0],
                split::tail(output, TAIL_CHARS as nat),
            ).answered(m, steps),
        ) == said(rest),
        answered_throughout(refined_rest(m, rest, output)) ==> text::dense(output) + said(
            all_written(
                (Agenda { frames: Seq::empty(), windows: rest.drop_first(), output }).enter(
                    rest[0],
                    split::tail(output, TAIL_CHARS as nat),
                ).replies(m, steps),
            ),
        ) == result_says(refined_rest(m, rest, output)),
    decreases rest.len(),
{
    let agenda = Agenda { frames: Seq::empty(), windows: rest.drop_first(), output };
    let before = split::tail(output, TAIL_CHARS as nat);
    let v0 = agenda.enter(rest[0], before);
    let a = lemma_piece_runs(agenda, m, rest[0], before);
    lemma_window_fault(m, rest[0], before);
    lemma_said_one(rest[0]);
    lemma_said_add(seq![rest[0]], rest.drop_first());
    assert(seq![rest[0]] + rest.drop_first() == rest);
    match refined_window(m, rest[0], before) {
        Err(e) => a,
        Ok(part) => {
            lemma_parts_are_joined(output, part);
            if rest.len() == 1 {
                let whole = joined(output, part);
                text::lemma_dense_trimmed(whole);
                if text::trimmed(whole).len() == 0 {
                    assert(text::trimmed(whole) =~= Seq::<char>::empty());
                    lemma_said_nothing();
                }
                assert(rest == seq![rest[0]]);
                assert(refined_rest(m, rest.drop_first(), joined(output, part)) == finished(
                    joined(output, part),
                ));
                a
            } else {
                let b = lemma_rest_runs(m, rest.drop_first(), joined(output, part));
                lemma_run_add(v0, m, a, b);
                lemma_said_add(v0.answered(m, a), v0.run(m, a).answered(m, b));
                lemma_all_written_add(v0.replies(m, a), v0.run(m, a).replies(m, b));
                assert(text::dense(output) + (text::dense(part) + said(
                    all_written(v0.run(m, a).replies(m, b)),
                )) =~= text::dense(output) + text::dense(part) + said(
                    all_written(v0.run(m, a).replies(m, b)),
                ));
                a + b
            }
        },
    }
}

/// However a language model answers, a session with it ends, and it ends with the refined
/// form of the transcript. Where neither the model failed nor a window exceeded its context,
/// nothing that the transcript says was left out: the pieces that the model answered say it
/// all, in its order, and say nothing else; and the refined text says all that the model
/// wrote behind its reasoning in all of its answers, in their order, and nothing else.
pub proof fn lemma_session_refines(m: LanguageModel, content: Seq<char>)
    ensures
        exists|steps: nat|
            (#[trigger] SessionView::begun(content).run(m, steps)) == done(refined(m, content)) && (
            answered_throughout(refined(m, content)) ==> said(
                SessionView::begun(content).answered(m, steps),
            ) == text::dense(content) && said(
                all_written(SessionView::begun(content).replies(m, steps)),
            ) == result_says(refined(m, content))),
{
    let begun = SessionView::begun(content);
    if text::trimmed(content).len() == 0 {
        text::lemma_dense_trimmed(content);
        lemma_said_nothing();
        assert(text::trimmed(content) == Seq::<char>::empty());
        assert(begun.run(m, 0) == done(refined(m, content)));
        assert(begun.answered(m, 0) == Seq::<Seq<char>>::empty());
        assert(all_written(begun.replies(m, 0)) =~= Seq::<Seq<char>>::empty());
    } else {
        split::lemma_windows(content);
        assert(split::tail(Seq::empty(), TAIL_CHARS as nat) == Seq::<char>::empty());
        let steps = lemma_rest_runs(m, split::windows(content), Seq::empty());
        lemma_said_nothing();
        let heard = said(all_written(begun.replies(m, steps)));
        assert(text::dense(Seq::empty()) + heard =~= heard);
        assert(begun.run(m, steps) == done(refined(m, content)));
    }
}

/// A refined transcript is neither empty nor surrounded by white space; and that the
/// transcript was empty is said of the blank ones, and of no others.
pub proof fn lemma_refined_is_clean(m: LanguageModel, content: Seq<char>)
    ensures
        refined(m, content) matches Ok(t) ==> t.len() > 0 && text::trimmed(t) == t,
        refined(m, content) == Err::<Seq<char>, Fault>(Fault::EmptyInput) <==> text::trimmed(
            content,
        ).len() == 0,
{
    lemma_rest_is_clean(m, split::windows(content), Seq::empty());
}

proof fn lemma_rest_is_clean(m: LanguageModel, rest: Seq<Seq<char>>, output: Seq<char>)
    ensures
        refined_rest(m, rest, output) matches Ok(t) ==> t.len() > 0 && text::trimmed(t) == t,
        refined_rest(m, rest, output) != Err::<Seq<char>, Fault>(Fault::EmptyInput),
    decreases rest.len(),
{
    if rest.len() == 0 {
        text::lemma_trimmed(output);
    } else {
        let before = split::tail(output, TAIL_CHARS as nat);
        lemma_window_fault(m, rest[0], before);
        if let Ok(part) = refined_window(m, rest[0], before) {
            lemma_rest_is_clean(m, rest.drop_first(), joined(output, part));
        }
    }
}

proof fn lemma_window_fault(m: LanguageModel, content: Seq<char>, before: Seq<char>)
    ensures
        refined_window(m, content, before) matches Err(e) ==> e is Model || e is DoesNotFit,
    decreases content.len(),
{
    let c = text::trimmed(content);
    text::lemma_trimmed(content);
    split::lemma_halves(c);
    if let Some((left, right)) = split::halves(c) {
        lemma_window_fault(m, left, before);
        if let Ok(l) = refined_window(m, left, before) {
            lemma_window_fault(m, right, split::tail(before + l, TAIL_CHARS as nat));
        }
    }
}

/// A session asks for an answer exactly where the prompt, the answer and the margin fit into
/// the context: to the window that was counted, with the text before it, and for as many
/// tokens as the window has and the slack besides, but no more than one answer may take.
pub proof fn lemma_answers_fit(
    v: SessionView,
    content: Seq<char>,
    before: Seq<char>,
    prompt_tokens: nat,
    content_tokens: nat,
    budget: nat,
)
    requires
        v.stage == (StageView::Measure { content, before }),
        budget <= content_tokens + ANSWER_SLACK,
        budget <= MAX_NEW_TOKENS_CAP,
        budget == content_tokens + ANSWER_SLACK || budget == MAX_NEW_TOKENS_CAP,
    ensures
        v.measured(prompt_tokens, content_tokens).stage is Generate <==> prompt_tokens + budget
            + OUTPUT_MARGIN <= CONTEXT_SIZE,
        v.measured(prompt_tokens, content_tokens).stage is Generate ==> v.measured(
            prompt_tokens,
            content_tokens,
        ) == (SessionView { stage: StageView::Generate { content, before, budget }, ..v }),
{
    if !fits_context(prompt_tokens, answer_budget(content_tokens)) {
        if let Some((left, right)) = split::halves(content) {
            let inner = Agenda {
                frames: v.agenda.frames.push(FrameView::Left { right, before }),
                ..v.agenda
            };
            lemma_enter_stage(inner, left, before);
        }
    }
}

proof fn lemma_enter_stage(agenda: Agenda, content: Seq<char>, before: Seq<char>)
    ensures
        !(agenda.enter(content, before).stage is Generate),
    decreases agenda.windows.len(), weight(agenda.frames), 1nat,
{
    if text::trimmed(content).len() == 0 {
        lemma_deliver_stage(agenda, Seq::empty());
    }
}

proof fn lemma_deliver_stage(agenda: Agenda, part: Seq<char>)
    ensures
        !(agenda.deliver(part).stage is Generate),
    decreases agenda.windows.len(), weight(agenda.frames), 0nat,
{
    if agenda.frames.len() > 0 {
        let outer = agenda.frames.drop_last();
        match agenda.frames.last() {
            FrameView::Left { right, before } => {
                let frames = outer.push(FrameView::Right { left: part });
                assert(frames.drop_last() == outer);
                lemma_enter_stage(
                    Agenda { frames, ..agenda },
                    right,
                    split::tail(before + part, TAIL_CHARS as nat),
                );
            },
            FrameView::Right { left } => {
                lemma_deliver_stage(Agenda { frames: outer, ..agenda }, left + part);
            },
        }
    } else if agenda.windows.len() > 0 {
        let output = joined(agenda.output, part);
        lemma_enter_stage(
            Agenda { windows: agenda.windows.drop_first(), output, ..agenda },
            agenda.windows[0],
            split::tail(output, TAIL_CHARS as nat),
        );
    }
}

enum Stage {
    Measure { content: String, before: String },
    Generate { content: String, before: String, budget: usize },
    Done(Result<String, RefineError>),
}

enum Frame {
    Left { right: String, before: String },
    Right { left: String },
}

impl Stage {
    spec fn model(self) -> StageView {
        match self {
            Stage::Measure { content, before } => StageView::Measure {
                content: content@,
                before: before@,
            },
            Stage::Generate { content, before, budget } => StageView::Generate {
                content: content@,
                before: before@,
                budget: budget as nat,
            },
            Stage::Done(r) => StageView::Done(outcome(r)),
        }
    }
}

impl Frame {
    spec fn model(self) -> FrameView {
        match self {
            Frame::Left { right, before } => FrameView::Left { right: right@, before: before@ },
            Frame::Right { left } => FrameView::Right { left: left@ },
        }
    }
}

/// The dialogue that refines one transcript.
pub struct RefineSession {
    stage: Stage,
    frames: Vec<Frame>,
    /// The windows still to come, the next one last.
    windows: Vec<String>,
    output: String,
}

impl View for RefineSession {
    type V = SessionView;

    closed spec fn view(&self) -> SessionView {
        SessionView { stage: self.stage.model(), agenda: self.agenda() }
    }
}

/// What a session asks of the model.
pub enum Request {
    /// Count the tokens of this chat, and of `content` alone.
    Measure { content: String, chat: Vec<prompt::Message> },
    /// Answer the prompt that was measured last, with at most `budget` tokens.
    Generate { budget: usize },
    /// Nothing: the session is over.
    Nothing,
}

impl RefineSession {
    /// Begins to refine `content`.
    pub fn begin(content: &str) -> (r: RefineSession)
        ensures
            r@ == SessionView::begun(content@),
    {
        let mut session = RefineSession {
            stage: Stage::Done(Err(RefineError::EmptyInput)),
            frames: Vec::new(),
            windows: Vec::new(),
            output: String::new(),
        };
        if text::trim(content).as_str().is_empty() {
            session.finish(Err(RefineError::EmptyInput));
            return session;
        }
        proof {
            split::lemma_windows(content@);
        }
        let mut parts = split::split_windows(content);
        let ghost all = text::texts(parts@);
        let ghost count = parts@.len();
        while parts.len() > 0
            invariant
                parts@.len() <= count == all.len(),
                parts@.len() + session.windows@.len() == count,
                forall|i: int| 0 <= i < parts@.len() ==> parts@[i]@ == all[i],
                forall|i: int|
                    0 <= i < session.windows@.len() ==> (#[trigger] session.windows@[i])@ == all[count
                        - 1 - i],
                session.frames@.len() == 0,
                session.output@ == Seq::<char>::empty(),
            decreases parts@.len(),
        {
            if let Some(part) = parts.pop() {
                session.windows.push(part);
            }
        }
        if let Some(window) = session.windows.pop() {
            proof {
                assert(session.agenda().windows == all.drop_first());
                assert(session.agenda().frames == Seq::<FrameView>::empty());
            }
            session.enter(window.as_str(), String::new());
        }
        session
    }

    /// What the model is to do next.
    pub fn request(&self) -> (r: Request)
        ensures
            match self@.stage {
                StageView::Measure { content, before } => r matches Request::Measure {
                    content: c,
                    chat,
                } && c@ == content && chat@.len() == 2 && chat@[0]@ == (
                    "system"@,
                    prompt::SYSTEM_PROMPT@,
                ) && chat@[1]@ == ("user"@, prompt::user_message(content, before)),
                StageView::Generate { budget, .. } => r matches Request::Generate { budget: b }
                    && b == budget,
                StageView::Done(_) => r is Nothing,
            },
    {
        match &self.stage {
            Stage::Measure { content, before } => Request::Measure {
                content: content.clone(),
                chat: prompt::build_prompt(content.as_str(), before.as_str()),
            },
            Stage::Generate { budget, .. } => Request::Generate { budget: *budget },
            Stage::Done(_) => Request::Nothing,
        }
    }

    /// Takes the token counts of the prompt and of the window alone. Where the session did
    /// not ask for them, nothing changes.
    pub fn measured(&mut self, prompt_tokens: usize, content_tokens: usize)
        ensures
            final(self)@ == old(self)@.measured(prompt_tokens as nat, content_tokens as nat),
    {
        let (content, before) = match &self.stage {
            Stage::Measure { content, before } => (content.clone(), before.clone()),
            _ => return ,
        };
        let budget: usize = if content_tokens < MAX_NEW_TOKENS_CAP - ANSWER_SLACK {
            content_tokens + ANSWER_SLACK
        } else {
            MAX_NEW_TOKENS_CAP
        };
        if prompt_tokens <= CONTEXT_SIZE - OUTPUT_MARGIN - budget {
            self.stage = Stage::Generate { content, before, budget };
            return ;
        }
        match split::split_half(content.as_str()) {
            Some((left, right)) => {
                let ghost start = self.agenda();
                let shown = before.clone();
                self.frames.push(Frame::Left { right, before });
                proof {
                    assert(self.agenda().frames == start.frames.push(
                        FrameView::Left { right: right@, before: before@ },
                    ));
                    assert(self.agenda().windows == start.windows);
                }
                self.enter(left.as_str(), shown);
            },
            None => {
                self.finish(Err(RefineError::DoesNotFit));
            },
        }
    }

    /// Takes the answer of the model. Where the session did not ask for one, nothing
    /// changes.
    pub fn generated(&mut self, answer: &str)
        ensures
            final(self)@ == old(self)@.generated(answer@),
    {
        let asked = match &self.stage {
            Stage::Generate { .. } => true,
            _ => false,
        };
        if asked {
            self.deliver(text::trim(split::strip_reasoning(answer)));
        }
    }

    /// Takes note that the model failed. A session that is over stays as it is.
    pub fn failed(&mut self, message: String)
        ensures
            final(self)@ == old(self)@.failed(message@),
    {
        let over = match &self.stage {
            Stage::Done(_) => true,
            _ => false,
        };
        if !over {
            self.finish(Err(RefineError::Model(message)));
        }
    }

    /// What the session ended with; `None` while it goes on.
    pub fn into_outcome(self) -> (r: Option<Result<String, RefineError>>)
        ensures
            match r {
                Some(result) => self@.stage == StageView::Done(outcome(result)),
                None => !(self@.stage is Done),
            },
    {
        match self.stage {
            Stage::Done(result) => Some(result),
            _ => None,
        }
    }

    closed spec fn agenda(self) -> Agenda {
        Agenda {
            frames: Seq::new(self.frames@.len(), |i: int| self.frames@[i].model()),
            windows: Seq::new(
                self.windows@.len(),
                |i: int| self.windows@[self.windows@.len() - 1 - i]@,
            ),
            output: self.output@,
        }
    }

    fn finish(&mut self, r: Result<String, RefineError>)
        ensures
            final(self)@ == done(outcome(r)),
    {
        self.stage = Stage::Done(r);
        self.frames = Vec::new();
        self.windows = Vec::new();
        self.output = String::new();
        assert(self.agenda().frames == done(outcome(r)).agenda.frames);
        assert(self.agenda().windows == done(outcome(r)).agenda.windows);
    }

    fn enter(&mut self, content: &str, before: String)
        ensures
            final(self)@ == old(self).agenda().enter(content@, before@),
        decreases old(self).agenda().windows.len(), weight(old(self).agenda().frames), 1nat,
    {
        let content = text::trim(content);
        if content.as_str().is_empty() {
            self.deliver(String::new());
        } else {
            self.stage = Stage::Measure { content, before };
        }
    }

    fn deliver(&mut self, part: String)
        ensures
            final(self)@ == old(self).agenda().deliver(part@),
        decreases old(self).agenda().windows.len(), weight(old(self).agenda().frames), 0nat,
    {
        let ghost start = self.agenda();
        match self.frames.pop() {
            Some(Frame::Left { right, before }) => {
                let mut shown = before;
                shown.append(part.as_str());
                let ghost outer = start.frames.drop_last();
                self.frames.push(Frame::Right { left: part });
                proof {
                    assert(self.agenda().frames == outer.push(FrameView::Right { left: part@ }));
                    assert(self.agenda().frames.drop_last() == outer);
                    assert(self.agenda() == Agenda { frames: self.agenda().frames, ..start });
                }
                let shown = split::tail_of(shown.as_str(), TAIL_CHARS);
                self.enter(right.as_str(), shown);
            },
            Some(Frame::Right { left }) => {
                let mut whole = left;
                whole.append(part.as_str());
                proof {
                    assert(self.agenda().frames == start.frames.drop_last());
                    assert(self.agenda() == Agenda { frames: start.frames.drop_last(), ..start });
                }
                self.deliver(whole);
            },
            None => {
                append_part(&mut self.output, part.as_str());
                match self.windows.pop() {
                    Some(window) => {
                        let shown = split::tail_of(self.output.as_str(), TAIL_CHARS);
                        proof {
                            assert(self.agenda().windows == start.windows.drop_first());
                            assert(self.agenda().frames == start.frames);
                        }
                        self.enter(window.as_str(), shown);
                    },
                    None => {
                        let whole = text::trim(self.output.as_str());
                        if whole.as_str().is_empty() {
                            self.finish(Err(RefineError::EmptyOutput));
                        } else {
                            self.finish(Ok(whole));
                        }
                    },
                }
            },
        }
    }
}

/// Puts the refined form of a window behind the text so far, with a space between two words
/// of a script that uses them.
fn append_part(output: &mut String, part: &str)
    ensures
        final(output)@ == joined(old(output)@, part@),
{
    let total: usize = output.as_str().unicode_len();
    if total > 0 && part.unicode_len() > 0 {
        let last = output.as_str().get_char(total - 1);
        let first = part.get_char(0);
        if (last as u32) < 128 && (first as u32) < 128 && !text::is_whitespace(last)
            && !text::is_whitespace(first) {
            output.push(' ');
        }
    }
    output.append(part);
}

/// The context of the model holds 8192 tokens, of which 128 stay free; an answer takes at most
/// 2048, or 64 more than its window; and the next window is shown 200 characters.
pub proof fn lemma_limits()
    ensures
        CONTEXT_SIZE == 8192,
        OUTPUT_MARGIN == 128,
        MAX_NEW_TOKENS_CAP == 2048,
        ANSWER_SLACK == 64,
        TAIL_CHARS == 200,
{
}

} // verus!
