//! The course of one recognition: preparing the audio, finding the speech in it,
//! transcribing that, and refining the transcript.
use std::ops::Range;

use vstd::prelude::*;

use crate::audio;
use crate::recognizer::segments;
use crate::refiner::session;
use crate::text;

verus! {

/// Frequency below which everything is filtered out, in hertz.
pub const HIGH_PASS_HZ: u32 = 100;

/// Loudness that speech is brought to, in decibels relative to full scale.
pub const TARGET_RMS_DBFS: i32 = -20;

/// Decibels by which audio is amplified at most.
pub const MAX_GAIN_DB: i32 = 26;

/// Level that no peak exceeds, in decibels relative to full scale.
pub const PEAK_CEILING_DBFS: i32 = -1;

/// One treatment of the audio before speech is looked for in it.
#[derive(Clone, Copy, PartialEq, Eq, Debug)]
pub enum Treatment {
    Resample { from: u32, to: u32 },
    HighPass { sample_rate: u32, cutoff_hz: u32 },
    Denoise { sample_rate: u32 },
    Normalize { target_rms_dbfs: i32, max_gain_db: i32 },
    LimitPeak { ceiling_dbfs: i32 },
}

/// The treatments of a recording made at `sample_rate`, in their order.
pub open spec fn preparation(sample_rate: u32) -> Seq<Treatment> {
    seq![
        Treatment::Resample { from: sample_rate, to: segments::TARGET_SAMPLE_RATE },
        Treatment::HighPass {
            sample_rate: segments::TARGET_SAMPLE_RATE,
            cutoff_hz: HIGH_PASS_HZ,
        },
        Treatment::Denoise { sample_rate: segments::TARGET_SAMPLE_RATE },
        Treatment::Normalize { target_rms_dbfs: TARGET_RMS_DBFS, max_gain_db: MAX_GAIN_DB },
        Treatment::LimitPeak { ceiling_dbfs: PEAK_CEILING_DBFS },
    ]
}

/// How a recording made at `sample_rate` is prepared.
pub fn prepare(sample_rate: u32) -> (r: Vec<Treatment>)
    ensures
        r@ == preparation(sample_rate),
{
    let rate: u32 = segments::TARGET_SAMPLE_RATE;
    let mut r: Vec<Treatment> = Vec::new();
    r.push(Treatment::Resample { from: sample_rate, to: rate });
    r.push(Treatment::HighPass { sample_rate: rate, cutoff_hz: HIGH_PASS_HZ });
    r.push(Treatment::Denoise { sample_rate: rate });
    r.push(
        Treatment::Normalize { target_rms_dbfs: TARGET_RMS_DBFS, max_gain_db: MAX_GAIN_DB },
    );
    r.push(Treatment::LimitPeak { ceiling_dbfs: PEAK_CEILING_DBFS });
    r
}

/// Whatever rate a recording was made at: it is brought to the rate that is recognised before
/// anything else is done with it, then loses its low frequencies, then its noise, and only
/// then is made as loud as it should be, with no peak above the ceiling. Each is done once.
pub proof fn lemma_preparation(sample_rate: u32)
    ensures
        preparation(sample_rate).len() == 5,
        preparation(sample_rate)[0] == (Treatment::Resample { from: sample_rate, to: 16_000 }),
        preparation(sample_rate)[1] == (Treatment::HighPass {
            sample_rate: 16_000,
            cutoff_hz: 100,
        }),
        preparation(sample_rate)[2] == (Treatment::Denoise { sample_rate: 16_000 }),
        preparation(sample_rate)[3] == (Treatment::Normalize {
            target_rms_dbfs: -20i32,
            max_gain_db: 26,
        }),
        preparation(sample_rate)[4] == (Treatment::LimitPeak { ceiling_dbfs: -1i32 }),
{
}

/// The audio after noise was taken out of it: what the denoiser returned, or the audio as it
/// was where the denoiser returned nothing. Where there is no audio, the denoiser is not
/// asked: `denoised` is then of no account.
pub fn denoise<T>(samples: Vec<T>, denoised: Vec<T>) -> (r: Vec<T>)
    ensures
        r@ == if samples@.len() == 0 || denoised@.len() == 0 {
            samples@
        } else {
            denoised@
        },
{
    if samples.len() == 0 || denoised.len() == 0 {
        samples
    } else {
        denoised
    }
}

/// What the recogniser's output says, without its control prefix: what follows the last
/// `<asr_text>`, trimmed, or the whole text where there is none.
pub open spec fn without_control_prefix(s: Seq<char>) -> Seq<char> {
    match text::after_last(s, "<asr_text>"@) {
        Some(rest) => text::trimmed(rest),
        None => s,
    }
}

/// Takes the control prefix away.
pub fn strip_control_prefix(output: &str) -> (r: String)
    ensures
        r@ == without_control_prefix(output@),
{
    let chars = text::chars_of(output);
    let mark = text::chars_of("<asr_text>");
    let total: usize = chars.len();
    match text::find_last(&chars, &mark) {
        Some(at) => {
            proof {
                text::lemma_after_last(output@, mark@, at as int);
                assert(chars@.subrange(at + mark@.len(), total as int) == output@.skip(
                    at + mark@.len(),
                ));
            }
            let (lo, hi) = text::trim_range(&chars, at + mark.len(), total);
            text::string_of(&chars, lo, hi)
        },
        None => output.to_owned(),
    }
}

/// What one segment says, where `output` is what the recogniser wrote for it, if anything.
pub open spec fn segment_text(output: Option<Seq<char>>) -> Seq<char> {
    match output {
        Some(s) => without_control_prefix(text::trimmed(s)),
        None => Seq::empty(),
    }
}

/// What the segments say, one after the other.
pub open spec fn transcript(outputs: Seq<Option<Seq<char>>>) -> Seq<char>
    decreases outputs.len(),
{
    if outputs.len() == 0 {
        Seq::empty()
    } else {
        transcript(outputs.drop_last()) + segment_text(outputs.last())
    }
}

/// What the recogniser wrote behind its last control mark, or all of it where there is none.
pub open spec fn spoken(output: Seq<char>) -> Seq<char> {
    match text::after_last(output, "<asr_text>"@) {
        Some(rest) => rest,
        None => output,
    }
}

proof fn lemma_mark_in_stripped(
    t: Seq<char>,
    s: Seq<char>,
    mark: Seq<char>,
    lo: int,
    hi: int,
    j: int,
)
    requires
        mark.len() > 0,
        !text::white_space(mark[0]),
        !text::white_space(mark.last()),
        text::stripped_at(t, s, lo, hi),
    ensures
        text::occurs_at(s, mark, j) <==> text::occurs_at(t, mark, j - lo),
        text::occurs_at(s, mark, j) ==> lo <= j && j + mark.len() <= hi,
{
    let n = mark.len() as int;
    if text::occurs_at(s, mark, j) {
        assert(s.subrange(j, j + n)[0] == s[j]);
        assert(s.subrange(j, j + n)[n - 1] == s[j + n - 1]);
        assert(!text::white_space(s[j]) && !text::white_space(s[j + n - 1]));
        assert(lo <= j && j + n <= hi);
        assert(t.subrange(j - lo, j - lo + n) =~= s.subrange(j, j + n));
    }
    if text::occurs_at(t, mark, j - lo) {
        assert(t.subrange(j - lo, j - lo + n) =~= s.subrange(j, j + n));
    }
}

proof fn lemma_after_mark_in_stripped(
    t: Seq<char>,
    s: Seq<char>,
    mark: Seq<char>,
    lo: int,
    hi: int,
    i: int,
)
    requires
        mark.len() > 0,
        !text::white_space(mark[0]),
        !text::white_space(mark.last()),
        text::stripped_at(t, s, lo, hi),
        text::occurs_at(s, mark, i),
        forall|j: int| text::occurs_at(s, mark, j) ==> j <= i,
    ensures
        i + mark.len() <= hi,
        text::after_last(t, mark) == Some(s.subrange(i + mark.len(), hi)),
{
    lemma_mark_in_stripped(t, s, mark, lo, hi, i);
    assert forall|j: int| text::occurs_at(t, mark, j) implies j <= i - lo by {
        lemma_mark_in_stripped(t, s, mark, lo, hi, lo + j);
    }
    text::lemma_after_last(t, mark, i - lo);
    assert(t.skip(i - lo + mark.len()) =~= s.subrange(i + mark.len(), hi));
}

proof fn lemma_stripped_further(kept: Seq<char>, s: Seq<char>, from: int, hi: int)
    requires
        0 <= from <= hi <= s.len(),
        text::stripped(kept, s.subrange(from, hi)),
        forall|i: int| hi <= i < s.len() ==> text::white_space(#[trigger] s[i]),
    ensures
        text::stripped(kept, s.skip(from)),
{
    let part = s.subrange(from, hi);
    let rest = s.skip(from);
    let (a, b) = choose|a: int, b: int| #[trigger] text::stripped_at(kept, part, a, b);
    assert(kept =~= rest.subrange(a, b));
    assert forall|i: int| 0 <= i < a || b <= i < rest.len() implies text::white_space(
        #[trigger] rest[i],
    ) by {
        if i < part.len() {
            assert(part[i] == rest[i]);
        } else {
            assert(rest[i] == s[from + i]);
        }
    }
    assert(text::stripped_at(kept, rest, a, b));
}

/// Of a segment the transcript holds all that the recogniser wrote behind its last control
/// mark, or all of it where there is none, but for the white space around it, and nothing
/// else.
pub proof fn lemma_segment_is_kept_whole(output: Seq<char>)
    ensures
        text::stripped(segment_text(Some(output)), spoken(output)),
        text::dense(segment_text(Some(output))) == text::dense(spoken(output)),
        segment_text(None) == Seq::<char>::empty(),
{
    let mark = "<asr_text>"@;
    assert(mark.len() > 0 && mark[0] == '<' && mark.last() == '>') by {
        reveal_strlit("<asr_text>");
    }
    text::lemma_trimmed_is_stripped(output);
    let t = text::trimmed(output);
    let (lo, hi) = choose|lo: int, hi: int| #[trigger] text::stripped_at(t, output, lo, hi);
    if exists|i: int| text::occurs_at(output, mark, i) {
        let i = text::lemma_last_occurrence(output, mark);
        lemma_after_mark_in_stripped(t, output, mark, lo, hi, i);
        let from = i + mark.len();
        text::lemma_trimmed_is_stripped(output.subrange(from, hi));
        lemma_stripped_further(segment_text(Some(output)), output, from, hi);
    } else {
        assert forall|j: int| !text::occurs_at(t, mark, j) by {
            lemma_mark_in_stripped(t, output, mark, lo, hi, lo + j);
        }
    }
    text::lemma_stripped_is_trimmed(segment_text(Some(output)), spoken(output));
    text::lemma_dense_trimmed(spoken(output));
}

/// The transcript of some segments and then others is the one transcript and then the other;
/// that of one segment is what it says.
pub proof fn lemma_transcript_add(a: Seq<Option<Seq<char>>>, b: Seq<Option<Seq<char>>>)
    ensures
        transcript(a + b) == transcript(a) + transcript(b),
        a.len() == 1 ==> transcript(a) == segment_text(a[0]),
    decreases b.len(),
{
    if b.len() == 0 {
        assert(a + b =~= a);
        assert(transcript(a) + transcript(b) =~= transcript(a));
    } else {
        lemma_transcript_add(a, b.drop_last());
        assert((a + b).drop_last() =~= a + b.drop_last());
        assert(transcript(a) + transcript(b.drop_last()) + segment_text(b.last()) =~= transcript(a)
            + (transcript(b.drop_last()) + segment_text(b.last())));
    }
    if a.len() == 1 {
        assert(a.drop_last() =~= Seq::<Option<Seq<char>>>::empty());
        assert(transcript(a.drop_last()) =~= Seq::<char>::empty());
        assert(transcript(a) =~= segment_text(a[0]));
    }
}

/// The model of what the recogniser wrote.
pub open spec fn outputs_seq(outputs: Seq<Option<String>>) -> Seq<Option<Seq<char>>> {
    Seq::new(
        outputs.len(),
        |i: int|
            match outputs[i] {
                Some(s) => Some(s@),
                None => None,
            },
    )
}

/// There is one model for each output, with all its characters.
pub proof fn lemma_outputs_seq(outputs: Seq<Option<String>>, i: int)
    requires
        0 <= i < outputs.len(),
    ensures
        outputs_seq(outputs).len() == outputs.len(),
        outputs[i] is None <==> outputs_seq(outputs)[i] is None,
        outputs[i] matches Some(s) ==> outputs_seq(outputs)[i] == Some(s@),
{
}

/// Puts together what the recogniser wrote for each segment.
pub fn recognize(outputs: &Vec<Option<String>>) -> (r: String)
    ensures
        r@ == transcript(outputs_seq(outputs@)),
{
    let ghost all = outputs_seq(outputs@);
    let mut content = String::new();
    let mut i: usize = 0;
    while i < outputs.len()
        invariant
            i <= outputs@.len(),
            all == outputs_seq(outputs@),
            content@ == transcript(all.take(i as int)),
        decreases outputs@.len() - i,
    {
        proof {
            assert(all.take(i + 1).drop_last() == all.take(i as int));
            assert(all.take(i + 1).last() == all[i as int]);
        }
        match &outputs[i] {
            Some(output) => {
                let part = strip_control_prefix(text::trim(output.as_str()).as_str());
                content.append(part.as_str());
            },
            None => {
                assert(content@ + Seq::<char>::empty() == content@);
            },
        }
        i = i + 1;
    }
    assert(all.take(i as int) == all);
    content
}

/// How a recognition goes on.
pub enum Next {
    /// It is over, with this text.
    Done(String),
    /// These parts of the audio are to be transcribed.
    Recognize(Vec<Range<usize>>),
    /// This transcript is to be refined.
    Refine(String),
}

/// Goes on after speech was detected in audio of `len` samples. Without speech the
/// recognition is over, with an empty text.
pub fn on_detected(detected: &Vec<(usize, usize)>, len: usize) -> (r: Next)
    requires
        segments::forward(segments::merged(segments::span_seq(detected@), len as int)),
    ensures
        ({
            let parts = segments::cut(
                segments::merged(segments::span_seq(detected@), len as int),
            );
            if parts.len() == 0 {
                r matches Next::Done(t) && t@.len() == 0
            } else {
                r matches Next::Recognize(ranges) && audio::range_seq(ranges@) == parts
            }
        }),
{
    let parts = segments::segments(detected, len);
    assert(audio::range_seq(parts@).len() == parts@.len());
    if parts.len() == 0 {
        Next::Done(String::new())
    } else {
        Next::Recognize(parts)
    }
}

/// Goes on after the recogniser wrote `outputs`. A blank transcript ends the recognition,
/// with an empty text.
pub fn on_recognized(outputs: &Vec<Option<String>>) -> (r: Next)
    ensures
        ({
            let content = transcript(outputs_seq(outputs@));
            if text::trimmed(content).len() == 0 {
                r matches Next::Done(t) && t@.len() == 0
            } else {
                r matches Next::Refine(t) && t@ == content
            }
        }),
{
    let content = recognize(outputs);
    if text::trim(content.as_str()).as_str().is_empty() {
        Next::Done(String::new())
    } else {
        Next::Refine(content)
    }
}

/// The final text: the refined transcript, or the transcript as it is where it could not be
/// refined.
pub fn on_refined(content: String, refined: Result<String, session::RefineError>) -> (r: String)
    ensures
        r@ == final_text(content@, session::outcome(refined)),
{
    match refined {
        Ok(t) => t,
        Err(_) => content,
    }
}

/// The final text for a transcript and what refining it came to.
pub open spec fn final_text(content: Seq<char>, refined: Result<Seq<char>, session::Fault>) -> Seq<
    char,
> {
    match refined {
        Ok(t) => t,
        Err(_) => content,
    }
}

/// The text that a recognition ends with, where the recogniser wrote `outputs` and `m` is
/// the language model.
pub open spec fn recognized(outputs: Seq<Option<Seq<char>>>, m: session::LanguageModel) -> Seq<
    char,
> {
    let content = transcript(outputs);
    if text::trimmed(content).len() == 0 {
        Seq::empty()
    } else {
        final_text(content, session::refined(m, content))
    }
}

/// However the models behave, a recognition ends with a text that is either empty or more
/// than white space, and it is empty exactly where nothing but white space was transcribed.
pub proof fn lemma_recognized_is_not_blank(
    outputs: Seq<Option<Seq<char>>>,
    m: session::LanguageModel,
)
    ensures
        recognized(outputs, m).len() == 0 <==> text::trimmed(transcript(outputs)).len() == 0,
        recognized(outputs, m).len() > 0 ==> text::trimmed(recognized(outputs, m)).len() > 0,
{
    let content = transcript(outputs);
    session::lemma_refined_is_clean(m, content);
    text::lemma_trimmed(content);
}

/// A recognition ends with the refined transcript; with the transcript as it is, where
/// refining it met a fault; and with nothing where the transcript is blank.
pub proof fn lemma_recognized_is_refined(
    outputs: Seq<Option<Seq<char>>>,
    m: session::LanguageModel,
)
    ensures
        text::dense(transcript(outputs)).len() > 0 ==> match session::refined(
            m,
            transcript(outputs),
        ) {
            Ok(t) => recognized(outputs, m) == t,
            Err(_) => recognized(outputs, m) == transcript(outputs),
        },
        text::dense(transcript(outputs)).len() == 0 ==> recognized(outputs, m).len() == 0,
{
    let content = transcript(outputs);
    text::lemma_trimmed(content);
    text::lemma_dense_trimmed(content);
    let t = text::trimmed(content);
    if t.len() == 0 {
        assert(t =~= Seq::<char>::empty());
        reveal(Seq::filter);
    } else {
        let first = seq![t[0]];
        assert(first + t.drop_first() =~= t);
        text::lemma_dense_add(first, t.drop_first());
        assert(text::dense(first).len() > 0) by {
            reveal(Seq::filter);
            assert(first.last() == t[0]);
        }
    }
}

/// No segment leaves a control mark in the transcript, nor white space around what it says.
pub proof fn lemma_segment_text_is_clean(output: Option<Seq<char>>, i: int)
    ensures
        !text::occurs_at(segment_text(output), "<asr_text>"@, i),
        text::trimmed(segment_text(output)) == segment_text(output),
{
    reveal_strlit("<asr_text>");
    let mark = "<asr_text>"@;
    match output {
        Some(s) => {
            let t = text::trimmed(s);
            text::lemma_trimmed(s);
            match text::after_last(t, mark) {
                Some(rest) => {
                    text::lemma_trimmed(rest);
                    text::lemma_trimmed_occurs(rest, mark, i);
                    if text::occurs_at(text::trimmed(rest), mark, i) {
                        let j = choose|j: int| text::occurs_at(rest, mark, j);
                        text::lemma_none_after_last(t, mark, j);
                    }
                },
                None => {
                    text::lemma_none_after_last(t, mark, i);
                },
            }
        },
        None => {
            text::lemma_trimmed(Seq::empty());
        },
    }
}

/// Audio that is gathered, piece by piece, until the recogniser is told to recognise it.
pub struct Utterance<T> {
    samples: Vec<T>,
    sample_rate: u32,
}

impl<T> Utterance<T> {
    /// The audio gathered so far.
    pub closed spec fn samples(self) -> Seq<T> {
        self.samples@
    }

    /// The rate that it was recorded at.
    pub closed spec fn sample_rate(self) -> u32 {
        self.sample_rate
    }

    /// Begins with no audio.
    pub fn begin() -> (r: Utterance<T>)
        ensures
            r.samples() == Seq::<T>::empty(),
            r.sample_rate() == segments::TARGET_SAMPLE_RATE,
    {
        Utterance { samples: Vec::new(), sample_rate: segments::TARGET_SAMPLE_RATE }
    }

    /// Puts more audio behind what is there.
    pub fn push(&mut self, samples: Vec<T>, sample_rate: u32)
        ensures
            final(self).samples() == old(self).samples() + samples@,
            final(self).sample_rate() == sample_rate,
    {
        let mut more = samples;
        self.samples.append(&mut more);
        self.sample_rate = sample_rate;
    }

    /// Hands the audio over, with its rate.
    pub fn end(self) -> (r: (Vec<T>, u32))
        ensures
            r.0@ == self.samples(),
            r.1 == self.sample_rate(),
    {
        (self.samples, self.sample_rate)
    }
}

} // verus!
