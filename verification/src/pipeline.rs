//! The pipeline from the recorder to the recogniser: when it starts and stops, and which
//! audio is handed on.
//!
//! Recorder and recogniser are outside of this module. The pipeline says what is to be done
//! with them and is told what came of it.
use vstd::prelude::*;

use crate::recognizer::ready;
use crate::text;

verus! {

/// What happened in the pipeline.
pub enum PipelineEvent {
    Ready,
    Recognized(String),
    Failed(String),
}

/// The model of a `PipelineEvent`.
pub enum EventView {
    Ready,
    Recognized(Seq<char>),
    Failed(Seq<char>),
}

impl View for PipelineEvent {
    type V = EventView;

    open spec fn view(&self) -> EventView {
        match self {
            PipelineEvent::Ready => EventView::Ready,
            PipelineEvent::Recognized(t) => EventView::Recognized(t@),
            PipelineEvent::Failed(message) => EventView::Failed(message@),
        }
    }
}

/// The model of a list of events.
pub open spec fn event_seq(events: Seq<PipelineEvent>) -> Seq<EventView> {
    Seq::new(events.len(), |i: int| events[i]@)
}

/// There is one model for each event, with the words of its text or its failure.
pub proof fn lemma_event_seq(events: Seq<PipelineEvent>, i: int)
    requires
        0 <= i < events.len(),
    ensures
        event_seq(events).len() == events.len(),
        match events[i] {
            PipelineEvent::Ready => event_seq(events)[i] == EventView::Ready,
            PipelineEvent::Recognized(t) => event_seq(events)[i] == EventView::Recognized(t@),
            PipelineEvent::Failed(message) => event_seq(events)[i] == EventView::Failed(message@),
        },
{
}

/// The model of the pipeline.
pub struct PipelineView {
    /// Whether the models are being loaded.
    pub loading: bool,
    /// Whether a recording is going on.
    pub active: bool,
    /// How many recordings have ended whose text has not come yet.
    pub recognizing: nat,
}

/// The pipeline at first.
pub open spec fn fresh() -> PipelineView {
    PipelineView { loading: true, active: false, recognizing: 0 }
}

/// What is told of the models, where loading them stands at `got`.
pub open spec fn ready_events(loading: bool, got: Result<bool, Seq<char>>) -> Seq<EventView> {
    if !loading {
        Seq::empty()
    } else {
        match got {
            Ok(true) => seq![EventView::Ready],
            Ok(false) => Seq::empty(),
            Err(message) => seq![EventView::Failed(message)],
        }
    }
}

/// What is told of recognised texts.
pub open spec fn text_events(texts: Seq<Seq<char>>) -> Seq<EventView> {
    Seq::new(texts.len(), |i: int| EventView::Recognized(texts[i]))
}

impl PipelineView {
    /// The pipeline after loading the models stood at `got`, and `texts` texts came.
    pub open spec fn polled(self, got: Result<bool, Seq<char>>, texts: nat) -> PipelineView {
        PipelineView {
            loading: self.loading && got == Ok::<bool, Seq<char>>(false),
            recognizing: if texts < self.recognizing {
                (self.recognizing - texts) as nat
            } else {
                0
            },
            ..self
        }
    }

    /// Whether the device may be changed: not during a recording, nor during a recognition.
    pub open spec fn selectable(self) -> bool {
        !self.active && self.recognizing == 0
    }

    /// Whether a recording may be started.
    pub open spec fn startable(self) -> bool {
        !self.loading && !self.active
    }

    /// The pipeline after the recorder was to be started, where `ok` says whether it was.
    pub open spec fn started(self, ok: bool) -> PipelineView {
        PipelineView { active: self.active || self.startable() && ok, ..self }
    }

    /// The pipeline after the recording was stopped. It counts no further than `u64::MAX`.
    pub open spec fn stopped(self) -> PipelineView {
        PipelineView {
            active: false,
            recognizing: if self.active && self.recognizing < u64::MAX {
                self.recognizing + 1
            } else {
                self.recognizing
            },
            ..self
        }
    }
}

/// Something that the pipeline is told.
pub enum Input {
    /// Loading the models stands at this, the recorder delivered some audio or none, and
    /// these texts came.
    Poll { got: Result<bool, Seq<char>>, audio: bool, texts: Seq<Seq<char>> },
    /// A recording is to be started; the recorder can be, or cannot.
    Start { ok: bool },
    /// A recording is to be stopped; the recorder delivered some more audio or none.
    Stop { audio: bool },
}

/// Something that the recogniser is told.
pub enum Call {
    Begin,
    Push,
    End,
}

/// The pipeline after `input`.
pub open spec fn next(v: PipelineView, input: Input) -> PipelineView {
    match input {
        Input::Poll { got, texts, .. } => v.polled(got, texts.len()),
        Input::Start { ok } => v.started(ok),
        Input::Stop { .. } => v.stopped(),
    }
}

/// What the recogniser is told upon `input`.
pub open spec fn calls(v: PipelineView, input: Input) -> Seq<Call> {
    match input {
        Input::Poll { audio, .. } => if v.active && audio {
            seq![Call::Push]
        } else {
            Seq::empty()
        },
        Input::Start { ok } => if v.startable() && ok {
            seq![Call::Begin]
        } else {
            Seq::empty()
        },
        Input::Stop { audio } => if !v.active {
            Seq::empty()
        } else if audio {
            seq![Call::Push, Call::End]
        } else {
            seq![Call::End]
        },
    }
}

/// What the recogniser is told upon all of `inputs`, and the pipeline thereafter.
pub open spec fn run(v: PipelineView, inputs: Seq<Input>) -> (PipelineView, Seq<Call>)
    decreases inputs.len(),
{
    if inputs.len() == 0 {
        (v, Seq::empty())
    } else {
        let (before, told) = run(v, inputs.drop_last());
        (next(before, inputs.last()), told + calls(before, inputs.last()))
    }
}

/// Whether every recording in `told` begins, then is pushed audio, then ends, and none
/// begins inside of another; `open` says whether one is still going on behind it.
pub open spec fn bracketed(told: Seq<Call>, open: bool) -> bool
    decreases told.len(),
{
    if told.len() == 0 {
        !open
    } else {
        match told.last() {
            Call::Begin => open && bracketed(told.drop_last(), false),
            Call::Push => open && bracketed(told.drop_last(), true),
            Call::End => !open && bracketed(told.drop_last(), true),
        }
    }
}

/// Whatever the pipeline is told, the recogniser is told of well-formed recordings only:
/// audio is pushed only between the beginning and the end of one, and they never overlap.
pub proof fn lemma_recordings_are_bracketed(inputs: Seq<Input>)
    ensures
        bracketed(
            run(fresh(), inputs).1,
            run(fresh(), inputs).0.active,
        ),
    decreases inputs.len(),
{
    if inputs.len() > 0 {
        lemma_recordings_are_bracketed(inputs.drop_last());
        let (before, told) = run(fresh(), inputs.drop_last());
        let more = calls(before, inputs.last());
        let all = told + more;
        if more.len() == 0 {
            assert(all == told);
        } else if more.len() == 1 {
            assert(all.drop_last() == told);
        } else {
            assert(all.drop_last() == told.push(Call::Push));
            assert(told.push(Call::Push).drop_last() == told);
            assert(bracketed(told.push(Call::Push), true));
        }
    }
}

/// While the models are loaded nothing is told to the recogniser.
pub proof fn lemma_nothing_while_loading(inputs: Seq<Input>)
    ensures
        ({
            let (v, told) = run(fresh(), inputs);
            v.loading ==> !v.active && told.len() == 0
        }),
    decreases inputs.len(),
{
    if inputs.len() > 0 {
        lemma_nothing_while_loading(inputs.drop_last());
    }
}

/// What is told of the models upon all of `inputs`.
pub open spec fn told_of_models(inputs: Seq<Input>) -> Seq<EventView>
    decreases inputs.len(),
{
    if inputs.len() == 0 {
        Seq::empty()
    } else {
        let before = run(fresh(), inputs.drop_last()).0;
        told_of_models(inputs.drop_last()) + match inputs.last() {
            Input::Poll { got, .. } => ready_events(before.loading, got),
            _ => Seq::empty(),
        }
    }
}

/// That the models are loaded, or that they cannot be, is told once: once it is known, and
/// not before.
pub proof fn lemma_models_are_told_of_once(inputs: Seq<Input>)
    ensures
        told_of_models(inputs).len() == if run(fresh(), inputs).0.loading {
            0nat
        } else {
            1nat
        },
    decreases inputs.len(),
{
    if inputs.len() > 0 {
        lemma_models_are_told_of_once(inputs.drop_last());
    }
}

/// How many recordings end in `told`.
pub open spec fn ends(told: Seq<Call>) -> nat
    decreases told.len(),
{
    if told.len() == 0 {
        0
    } else {
        ends(told.drop_last()) + if told.last() is End {
            1nat
        } else {
            0nat
        }
    }
}

/// How many texts come with `inputs`.
pub open spec fn texts_in(inputs: Seq<Input>) -> nat
    decreases inputs.len(),
{
    if inputs.len() == 0 {
        0
    } else {
        texts_in(inputs.drop_last()) + match inputs.last() {
            Input::Poll { texts, .. } => texts.len(),
            _ => 0,
        }
    }
}

proof fn lemma_recognizing(inputs: Seq<Input>)
    requires
        inputs.len() <= u64::MAX,
    ensures
        ({
            let (v, told) = run(fresh(), inputs);
            &&& v.recognizing <= inputs.len()
            &&& ends(told) <= v.recognizing + texts_in(inputs)
        }),
    decreases inputs.len(),
{
    if inputs.len() > 0 {
        lemma_recognizing(inputs.drop_last());
        let (before, told) = run(fresh(), inputs.drop_last());
        let more = calls(before, inputs.last());
        let all = told + more;
        if more.len() == 0 {
            assert(all == told);
        } else if more.len() == 1 {
            assert(all.drop_last() == told);
        } else {
            assert(all.drop_last() == told.push(Call::Push));
            assert(told.push(Call::Push).drop_last() == told);
            assert(ends(told.push(Call::Push)) == ends(told));
        }
    }
}

/// Wherever the device may be changed, no recording is going on, and of every recording that
/// has ended the text has come.
pub proof fn lemma_device_stays_during_talk(inputs: Seq<Input>)
    requires
        inputs.len() <= u64::MAX,
    ensures
        ({
            let (v, told) = run(fresh(), inputs);
            v.selectable() ==> bracketed(told, false) && ends(told) <= texts_in(inputs)
        }),
{
    lemma_recordings_are_bracketed(inputs);
    lemma_recognizing(inputs);
}

/// Every text that comes is told, once, in the order in which it came, as it is.
pub proof fn lemma_texts_are_told(a: Seq<Seq<char>>, b: Seq<Seq<char>>, i: int)
    ensures
        text_events(a).len() == a.len(),
        0 <= i < a.len() ==> text_events(a)[i] == EventView::Recognized(a[i]),
        text_events(a + b) == text_events(a) + text_events(b),
{
    assert(text_events(a + b) =~= text_events(a) + text_events(b));
}

/// While the models are being loaded, that they are is told exactly where it was learned, and
/// that they cannot be where that was, in the words in which it was; afterwards nothing is
/// told of them. Loading goes on exactly as long as nothing was learned.
pub proof fn lemma_models_are_told_of(v: PipelineView, got: Result<bool, Seq<char>>, texts: nat)
    ensures
        ready_events(v.loading, got).contains(EventView::Ready) <==> v.loading && got == Ok::<
            bool,
            Seq<char>,
        >(true),
        forall|message: Seq<char>|
            #[trigger] ready_events(v.loading, got).contains(EventView::Failed(message))
                <==> v.loading && got == Err::<bool, Seq<char>>(message),
        ready_events(v.loading, got).len() == 0 <==> !v.loading || v.polled(got, texts).loading,
        v.polled(got, texts).active == v.active,
{
    let told = ready_events(v.loading, got);
    if told.len() > 0 {
        assert(told.len() == 1);
        assert(told.contains(told[0]));
        if let Err(message) = got {
            assert(told[0] == EventView::Failed(message));
        }
    }
}

/// A recording begins whenever it can: once it is known of the models, where none is going on
/// and the recorder can be started, the recogniser is told to begin. It goes on until it is
/// stopped, and then the recogniser is told to end. Whatever audio comes meanwhile is pushed.
pub proof fn lemma_recordings_begin_and_end(inputs: Seq<Input>, audio: bool)
    ensures
        ({
            let (v, told) = run(fresh(), inputs);
            let (begun, calls) = run(fresh(), inputs.push(Input::Start { ok: true }));
            let (over, last) = run(fresh(), inputs.push(Input::Stop { audio }));
            &&& told_of_models(inputs).len() == 1 && !v.active ==> begun.active && calls == told.push(
                Call::Begin,
            )
            &&& told_of_models(inputs).len() == 0 || v.active ==> calls == told && begun.active
                == v.active
            &&& !over.active
            &&& v.active ==> last == if audio {
                told.push(Call::Push).push(Call::End)
            } else {
                told.push(Call::End)
            }
            &&& !v.active ==> last == told
        }),
{
    lemma_models_are_told_of_once(inputs);
    let (v, told) = run(fresh(), inputs);
    let start = inputs.push(Input::Start { ok: true });
    let stop = inputs.push(Input::Stop { audio });
    assert(start.drop_last() =~= inputs && stop.drop_last() =~= inputs);
    assert(told + seq![Call::Begin] =~= told.push(Call::Begin));
    assert(told + Seq::<Call>::empty() =~= told);
    assert(told + seq![Call::Push, Call::End] =~= told.push(Call::Push).push(Call::End));
    assert(told + seq![Call::End] =~= told.push(Call::End));
}

/// Whether no text comes before the recording whose text it is has ended.
pub open spec fn in_turn(inputs: Seq<Input>) -> bool
    decreases inputs.len(),
{
    texts_in(inputs) <= ends(run(fresh(), inputs).1) && (inputs.len() > 0 ==> in_turn(
        inputs.drop_last(),
    ))
}

/// Where texts come in their turn, as many recordings are being recognised as have ended and
/// have not got their text; so the device may be changed again as soon as every text has come
/// and no recording is going on.
pub proof fn lemma_recognizing_is_what_is_missing(inputs: Seq<Input>)
    requires
        inputs.len() <= u64::MAX,
        in_turn(inputs),
    ensures
        ({
            let (v, told) = run(fresh(), inputs);
            &&& v.recognizing + texts_in(inputs) == ends(told)
            &&& v.selectable() <==> !v.active && texts_in(inputs) == ends(told)
        }),
    decreases inputs.len(),
{
    if inputs.len() > 0 {
        lemma_recognizing_is_what_is_missing(inputs.drop_last());
        lemma_recognizing(inputs.drop_last());
        let (before, told) = run(fresh(), inputs.drop_last());
        let more = calls(before, inputs.last());
        let all = told + more;
        if more.len() == 0 {
            assert(all == told);
        } else if more.len() == 1 {
            assert(all.drop_last() == told);
        } else {
            assert(all.drop_last() == told.push(Call::Push));
            assert(told.push(Call::Push).drop_last() == told);
            assert(ends(told.push(Call::Push)) == ends(told));
        }
    }
}

/// The pipeline.
pub struct Pipeline {
    loading: bool,
    active: bool,
    recognizing: u64,
}

impl View for Pipeline {
    type V = PipelineView;

    closed spec fn view(&self) -> PipelineView {
        PipelineView {
            loading: self.loading,
            active: self.active,
            recognizing: self.recognizing as nat,
        }
    }
}

impl Pipeline {
    /// A pipeline whose models are being loaded.
    pub fn new() -> (r: Pipeline)
        ensures
            r@ == fresh(),
    {
        Pipeline { loading: true, active: false, recognizing: 0 }
    }

    /// Whether the models are being loaded: only then it matters how far that is.
    pub fn is_loading(&self) -> (r: bool)
        ensures
            r == self@.loading,
    {
        self.loading
    }

    /// The audio to push to the recogniser, where the recorder delivered `samples`; `None`
    /// where there is none, or no recording is going on.
    pub fn forward<T>(&self, samples: Vec<T>) -> (r: Option<Vec<T>>)
        ensures
            match r {
                Some(pushed) => self@.active && samples@.len() > 0 && pushed@ == samples@,
                None => !self@.active || samples@.len() == 0,
            },
    {
        if self.active && samples.len() > 0 {
            Some(samples)
        } else {
            None
        }
    }

    /// Takes how far loading the models is, and the texts that were recognised, and tells
    /// what happened. Once the models are loaded, or are known not to be, `got` is of no
    /// account.
    pub fn poll(&mut self, got: Result<bool, String>, texts: Vec<String>) -> (r: Vec<PipelineEvent>)
        ensures
            final(self)@ == old(self)@.polled(ready::answer(got), texts@.len()),
            event_seq(r@) == ready_events(old(self)@.loading, ready::answer(got)) + text_events(
                text::texts(texts@),
            ),
    {
        let mut events: Vec<PipelineEvent> = Vec::new();
        if self.loading {
            match got {
                Ok(true) => {
                    self.loading = false;
                    events.push(PipelineEvent::Ready);
                },
                Ok(false) => {},
                Err(message) => {
                    self.loading = false;
                    events.push(PipelineEvent::Failed(message));
                },
            }
        }
        let count: usize = texts.len();
        self.recognizing = if (count as u64) < self.recognizing {
            self.recognizing - count as u64
        } else {
            0
        };
        let ghost first = ready_events(old(self)@.loading, ready::answer(got));
        let ghost all = text_events(text::texts(texts@));
        assert(event_seq(events@) == first);
        let mut i: usize = 0;
        assert(first + all.take(0) == first);
        while i < texts.len()
            invariant
                i <= texts@.len(),
                all == text_events(text::texts(texts@)),
                event_seq(events@) == first + all.take(i as int),
            decreases texts@.len() - i,
        {
            let ghost before = events@;
            events.push(PipelineEvent::Recognized(texts[i].clone()));
            proof {
                assert(event_seq(events@) == event_seq(before).push(all[i as int]));
                assert(all.take(i + 1) == all.take(i as int).push(all[i as int]));
            }
            i = i + 1;
        }
        assert(all.take(i as int) == all);
        events
    }

    /// Whether the recorder is to be started.
    pub fn start(&self) -> (r: bool)
        ensures
            r == self@.startable(),
    {
        !self.loading && !self.active
    }

    /// Takes whether the recorder was started, and tells whether the recogniser is to begin.
    pub fn started(&mut self, ok: bool) -> (r: bool)
        ensures
            final(self)@ == old(self)@.started(ok),
            r == (old(self)@.startable() && ok),
    {
        let r = self.start() && ok;
        if r {
            self.active = true;
        }
        r
    }

    /// Ends the recording, and tells whether there was one: then the recorder is to be
    /// stopped, what it still delivered to be pushed, and the recogniser told to end.
    pub fn stop(&mut self) -> (r: bool)
        ensures
            final(self)@ == old(self)@.stopped(),
            r == old(self)@.active,
    {
        let r = self.active;
        self.active = false;
        if r && self.recognizing < u64::MAX {
            self.recognizing = self.recognizing + 1;
        }
        r
    }

    /// Whether the device may be changed now. During a recording, and until the text of every
    /// recording has come, it may not.
    pub fn may_select(&self) -> (r: bool)
        ensures
            r == self@.selectable(),
    {
        !self.active && self.recognizing == 0
    }

    /// The audio to push before the recogniser is told to end, where stopping the recorder
    /// came to `delivered`; `None` where there is none.
    pub fn remainder<T>(delivered: Result<Vec<T>, String>) -> (r: Option<Vec<T>>)
        ensures
            match r {
                Some(pushed) => delivered matches Ok(samples) && samples@.len() > 0 && pushed@
                    == samples@,
                None => delivered matches Ok(samples) ==> samples@.len() == 0,
            },
    {
        match delivered {
            Ok(samples) => if samples.len() > 0 {
                Some(samples)
            } else {
                None
            },
            Err(_) => None,
        }
    }
}

} // verus!
