//! The parts of a recording that are handed to speech recognition.
//!
//! Voice activity detection reports where somebody speaks. Each report is widened by a
//! margin on both sides, reports close to each other are merged, and what is longer than
//! the recogniser takes at once is cut.
use std::ops::Range;

use vstd::prelude::*;

use crate::audio;

verus! {

/// Samples per second of the audio that is recognised.
pub const TARGET_SAMPLE_RATE: u32 = 16_000;

/// Samples that are kept before and behind speech: 0.8 seconds.
pub const SEGMENT_MARGIN: usize = 12_800;

/// Samples up to which two stretches of speech are taken as one: 0.6 seconds.
pub const MERGE_GAP: usize = 9_600;

/// Samples that one segment holds at most: 20 seconds.
pub const MAX_CHUNK: usize = 320_000;

/// Samples that are handed to voice activity detection at once.
pub const VAD_CHUNK: usize = 512;

/// What a report of voice activity detection covers: from `start` on, `n` samples. Neither
/// is below zero.
pub fn detected_span(start: i32, n: i32) -> (r: (usize, usize))
    ensures
        r.0 == if start < 0 {
            0
        } else {
            start as int
        },
        r.1 == r.0 + if n < 0 {
            0
        } else {
            n as int
        },
{
    let from: usize = if start < 0 {
        0
    } else {
        start as usize
    };
    let count: usize = if n < 0 {
        0
    } else {
        n as usize
    };
    (from, from + count)
}

/// The spans of a list, as numbers.
pub open spec fn span_seq(spans: Seq<(usize, usize)>) -> Seq<(int, int)> {
    Seq::new(spans.len(), |i: int| (spans[i].0 as int, spans[i].1 as int))
}

/// There is one pair for each span, of its two ends.
pub proof fn lemma_span_seq(spans: Seq<(usize, usize)>, i: int)
    requires
        0 <= i < spans.len(),
    ensures
        span_seq(spans).len() == spans.len(),
        span_seq(spans)[i] == (spans[i].0 as int, spans[i].1 as int),
{
}

/// `span` with the margin on both sides, inside a recording of `len` samples.
pub open spec fn widened(span: (int, int), len: int) -> (int, int) {
    (
        if span.0 < SEGMENT_MARGIN {
            0
        } else {
            span.0 - SEGMENT_MARGIN
        },
        if span.1 + SEGMENT_MARGIN < len {
            span.1 + SEGMENT_MARGIN
        } else {
            len
        },
    )
}

/// `groups` with one more span: it extends the last group where it begins no further than
/// the gap behind that group's end, and is a group of its own otherwise.
pub open spec fn grouped(groups: Seq<(int, int)>, span: (int, int)) -> Seq<(int, int)> {
    if groups.len() > 0 && span.0 <= groups.last().1 + MERGE_GAP {
        groups.drop_last().push(
            (
                groups.last().0,
                if span.1 > groups.last().1 {
                    span.1
                } else {
                    groups.last().1
                },
            ),
        )
    } else {
        groups.push(span)
    }
}

/// The groups that the widened spans of `detected` form, taken in order.
pub open spec fn merged(detected: Seq<(int, int)>, len: int) -> Seq<(int, int)>
    decreases detected.len(),
{
    if detected.len() == 0 {
        Seq::empty()
    } else {
        grouped(merged(detected.drop_last(), len), widened(detected.last(), len))
    }
}

/// The stretch from `start` to `end`, cut into pieces of the greatest length and a rest.
pub open spec fn pieces(start: int, end: int) -> Seq<(int, int)>
    decreases end - start,
{
    if end - start > MAX_CHUNK {
        seq![(start, start + MAX_CHUNK)] + pieces(start + MAX_CHUNK, end)
    } else if start < end {
        seq![(start, end)]
    } else {
        Seq::empty()
    }
}

/// All groups, cut into pieces.
pub open spec fn cut(groups: Seq<(int, int)>) -> Seq<(int, int)>
    decreases groups.len(),
{
    if groups.len() == 0 {
        Seq::empty()
    } else {
        cut(groups.drop_last()) + pieces(groups.last().0, groups.last().1)
    }
}

/// No group ends before it begins.
pub open spec fn forward(groups: Seq<(int, int)>) -> bool {
    forall|i: int| 0 <= i < groups.len() ==> (#[trigger] groups[i]).0 <= groups[i].1
}

/// Widens and merges what was detected in a recording of `len` samples.
pub fn merge_detected(detected: &Vec<(usize, usize)>, len: usize) -> (r: Vec<(usize, usize)>)
    ensures
        span_seq(r@) == merged(span_seq(detected@), len as int),
{
    let ghost all = span_seq(detected@);
    let mut groups: Vec<(usize, usize)> = Vec::new();
    let mut i: usize = 0;
    assert(span_seq(groups@) == merged(all.take(0), len as int));
    while i < detected.len()
        invariant
            i <= detected@.len(),
            all == span_seq(detected@),
            span_seq(groups@) == merged(all.take(i as int), len as int),
        decreases detected@.len() - i,
    {
        let (from, to) = detected[i];
        let start: usize = if from < SEGMENT_MARGIN {
            0
        } else {
            from - SEGMENT_MARGIN
        };
        let end: usize = if len > SEGMENT_MARGIN && to < len - SEGMENT_MARGIN {
            to + SEGMENT_MARGIN
        } else {
            len
        };
        let ghost before = groups@;
        let ghost span = (start as int, end as int);
        proof {
            assert(all.take(i + 1).drop_last() == all.take(i as int));
            assert(all.take(i + 1).last() == all[i as int]);
            assert(span == widened(all[i as int], len as int));
        }
        let count: usize = groups.len();
        if count > 0 && (start <= groups[count - 1].1 || start - groups[count - 1].1 <= MERGE_GAP) {
            let (first, last) = groups[count - 1];
            let _ = groups.pop();
            groups.push(
                (
                    first,
                    if end > last {
                        end
                    } else {
                        last
                    },
                ),
            );
        } else {
            groups.push((start, end));
        }
        assert(span_seq(groups@) == grouped(span_seq(before), span));
        i = i + 1;
    }
    assert(all.take(i as int) == all);
    groups
}

/// Cuts groups into segments.
pub fn cut_groups(groups: &Vec<(usize, usize)>) -> (r: Vec<Range<usize>>)
    requires
        forward(span_seq(groups@)),
    ensures
        audio::range_seq(r@) == cut(span_seq(groups@)),
{
    let ghost all = span_seq(groups@);
    let mut segments: Vec<Range<usize>> = Vec::new();
    let mut i: usize = 0;
    assert(audio::range_seq(segments@) == cut(all.take(0)));
    while i < groups.len()
        invariant
            i <= groups@.len(),
            all == span_seq(groups@),
            forward(all),
            audio::range_seq(segments@) == cut(all.take(i as int)),
        decreases groups@.len() - i,
    {
        let (start, end) = groups[i];
        proof {
            assert(all[i as int] == (start as int, end as int));
            assert(all.take(i + 1).drop_last() == all.take(i as int));
            assert(all.take(i + 1).last() == all[i as int]);
        }
        let ghost done = audio::range_seq(segments@);
        let mut from: usize = start;
        assert(audio::range_seq(segments@) + pieces(from as int, end as int) == cut(all.take(i + 1)));
        while end - from > MAX_CHUNK
            invariant
                from <= end,
                audio::range_seq(segments@) + pieces(from as int, end as int) == cut(all.take(i + 1)),
            decreases end - from,
        {
            let ghost before = segments@;
            segments.push(from..from + MAX_CHUNK);
            proof {
                let piece = (from as int, from + MAX_CHUNK);
                assert(audio::range_seq(segments@) == audio::range_seq(before).push(piece));
                assert(audio::range_seq(before) + (seq![piece] + pieces(from + MAX_CHUNK, end as int))
                    == audio::range_seq(segments@) + pieces(from + MAX_CHUNK, end as int));
            }
            from = from + MAX_CHUNK;
        }
        if from < end {
            let ghost before = segments@;
            segments.push(from..end);
            assert(audio::range_seq(segments@) == audio::range_seq(before).push((from as int, end as int)));
        }
        assert(audio::range_seq(segments@) == cut(all.take(i + 1)));
        i = i + 1;
    }
    assert(all.take(i as int) == all);
    segments
}

/// Whether what was detected lies in the recording, so that it can be cut into segments.
pub fn can_segment(detected: &Vec<(usize, usize)>, len: usize) -> (r: bool)
    ensures
        r == forward(merged(span_seq(detected@), len as int)),
{
    let groups = merge_detected(detected, len);
    let ghost all = span_seq(groups@);
    let mut i: usize = 0;
    while i < groups.len()
        invariant
            i <= groups@.len(),
            all == span_seq(groups@),
            all == merged(span_seq(detected@), len as int),
            forall|j: int| 0 <= j < i ==> (#[trigger] all[j]).0 <= all[j].1,
        decreases groups@.len() - i,
    {
        let (start, end) = groups[i];
        assert(all[i as int] == (start as int, end as int));
        if start > end {
            return false;
        }
        i = i + 1;
    }
    true
}

/// The segments of a recording of `len` samples in which speech was detected at `detected`.
///
/// What was detected lies in the recording: no group begins behind its end.
pub fn segments(detected: &Vec<(usize, usize)>, len: usize) -> (r: Vec<Range<usize>>)
    requires
        forward(merged(span_seq(detected@), len as int)),
    ensures
        audio::range_seq(r@) == cut(merged(span_seq(detected@), len as int)),
{
    let groups = merge_detected(detected, len);
    cut_groups(&groups)
}

/// Whether one of `spans` holds position `p`.
pub open spec fn covers(spans: Seq<(int, int)>, p: int) -> bool {
    exists|i: int| 0 <= i < spans.len() && (#[trigger] spans[i]).0 <= p < spans[i].1
}

/// Whether what was detected is listed by where it begins.
pub open spec fn listed_in_order(detected: Seq<(int, int)>) -> bool {
    forall|i: int, j: int| 0 <= i <= j < detected.len() ==> detected[i].0 <= detected[j].0
}

proof fn lemma_merged_shape(detected: Seq<(int, int)>, len: int)
    ensures
        forall|i: int|
            0 <= i < merged(detected, len).len() ==> 0 <= (#[trigger] merged(detected, len)[i]).0
                && merged(detected, len)[i].1 <= len,
        forall|i: int|
            #![trigger merged(detected, len)[i]]
            0 <= i < merged(detected, len).len() - 1 ==> merged(detected, len)[i].1 + MERGE_GAP
                < merged(detected, len)[i + 1].0,
        merged(detected, len).len() <= detected.len(),
        merged(detected, len).len() == 0 <==> detected.len() == 0,
    decreases detected.len(),
{
    if detected.len() > 0 {
        lemma_merged_shape(detected.drop_last(), len);
        let before = merged(detected.drop_last(), len);
        let span = widened(detected.last(), len);
        let after = merged(detected, len);
        assert(after == grouped(before, span));
        assert forall|i: int|
            #![trigger after[i]]
            0 <= i < after.len() - 1 implies after[i].1 + MERGE_GAP < after[i + 1].0 by {
            assert(after[i] == before[i]);
            if i + 1 < before.len() {
                assert(after[i + 1].0 == before[i + 1].0);
            }
        }
    }
}

proof fn lemma_merged_covers(detected: Seq<(int, int)>, len: int, k: int, p: int)
    requires
        listed_in_order(detected),
        0 <= k < detected.len(),
        widened(detected[k], len).0 <= p < widened(detected[k], len).1,
    ensures
        covers(merged(detected, len), p),
    decreases detected.len(),
{
    let before = merged(detected.drop_last(), len);
    let span = widened(detected.last(), len);
    let after = merged(detected, len);
    let last = after.len() - 1;
    if k < detected.len() - 1 {
        lemma_merged_covers(detected.drop_last(), len, k, p);
        let i = choose|i: int| 0 <= i < before.len() && (#[trigger] before[i]).0 <= p < before[i].1;
        assert(after[i].0 == before[i].0 && before[i].1 <= after[i].1);
    } else {
        lemma_last_group_begins(detected.drop_last(), len, detected.last());
        assert(after[last].0 <= span.0 && span.1 <= after[last].1);
    }
}

proof fn lemma_last_group_begins(detected: Seq<(int, int)>, len: int, next: (int, int))
    requires
        listed_in_order(detected.push(next)),
    ensures
        merged(detected, len).len() > 0 ==> merged(detected, len).last().0 <= widened(next, len).0,
    decreases detected.len(),
{
    if detected.len() > 0 {
        let all = detected.push(next);
        let head = detected.drop_last();
        assert(head.push(detected.last()) == detected);
        assert forall|i: int, j: int| 0 <= i <= j < detected.len() implies detected[i].0
            <= detected[j].0 by {
            assert(all[i] == detected[i] && all[j] == detected[j]);
        }
        lemma_last_group_begins(head, len, detected.last());
        assert(all[detected.len() - 1].0 <= all[detected.len() as int].0);
    }
}

proof fn lemma_pieces(start: int, end: int)
    ensures
        forall|i: int|
            0 <= i < pieces(start, end).len() ==> start <= (#[trigger] pieces(start, end)[i]).0
                < pieces(start, end)[i].1 <= end && pieces(start, end)[i].1 - pieces(
                start,
                end,
            )[i].0 <= MAX_CHUNK,
        forall|i: int, j: int|
            0 <= i < j < pieces(start, end).len() ==> (#[trigger] pieces(start, end)[i]).1 <= (
            #[trigger] pieces(start, end)[j]).0,
        forall|p: int| start <= p < end ==> #[trigger] covers(pieces(start, end), p),
    decreases end - start,
{
    let all = pieces(start, end);
    if end - start > MAX_CHUNK {
        let next = start + MAX_CHUNK;
        lemma_pieces(next, end);
        let rest = pieces(next, end);
        assert forall|i: int| 1 <= i < all.len() implies #[trigger] all[i] == rest[i - 1] by {}
        assert forall|p: int| start <= p < end implies #[trigger] covers(all, p) by {
            if p < next {
                assert(all[0].0 <= p < all[0].1);
            } else {
                assert(covers(rest, p));
                let i = choose|i: int|
                    0 <= i < rest.len() && (#[trigger] rest[i]).0 <= p < rest[i].1;
                assert(all[i + 1].0 <= p < all[i + 1].1);
            }
        }
    } else if start < end {
        assert forall|p: int| start <= p < end implies #[trigger] covers(all, p) by {
            assert(all[0].0 <= p < all[0].1);
        }
    }
}

proof fn lemma_cut(groups: Seq<(int, int)>, len: int)
    requires
        forward(groups),
        forall|i: int|
            0 <= i < groups.len() ==> 0 <= (#[trigger] groups[i]).0 && groups[i].1 <= len,
        forall|i: int|
            #![trigger groups[i]]
            0 <= i < groups.len() - 1 ==> groups[i].1 + MERGE_GAP < groups[i + 1].0,
    ensures
        forall|i: int|
            0 <= i < cut(groups).len() ==> 0 <= (#[trigger] cut(groups)[i]).0 < cut(groups)[i].1
                && cut(groups)[i].1 - cut(groups)[i].0 <= MAX_CHUNK && cut(groups)[i].1 <= len
                && cut(groups)[i].1 <= groups.last().1,
        forall|i: int, j: int|
            0 <= i < j < cut(groups).len() ==> (#[trigger] cut(groups)[i]).1 <= (#[trigger] cut(
                groups,
            )[j]).0,
    decreases groups.len(),
{
    let all = cut(groups);
    if groups.len() > 0 {
        let head = groups.drop_last();
        let last = groups.last();
        assert(groups[groups.len() - 1].0 <= groups[groups.len() - 1].1);
        if head.len() > 0 {
            assert(groups[head.len() - 1].1 + MERGE_GAP < groups[head.len() as int].0);
        }
        lemma_cut(head, len);
        lemma_pieces(last.0, last.1);
        let before = cut(head);
        let own = pieces(last.0, last.1);
        assert(all == before + own);
        assert forall|i: int| before.len() <= i < all.len() implies #[trigger] all[i] == own[i
            - before.len()] by {}
        assert forall|i: int, j: int| 0 <= i < j < all.len() implies (#[trigger] all[i]).1 <= (
        #[trigger] all[j]).0 by {
            if j < before.len() {
                assert(all[i] == before[i] && all[j] == before[j]);
            } else if i < before.len() {
                assert(all[i] == before[i]);
                assert(head.len() > 0);
            }
        }
    }
}

proof fn lemma_cut_covers(groups: Seq<(int, int)>, p: int)
    ensures
        covers(groups, p) <==> covers(cut(groups), p),
    decreases groups.len(),
{
    if groups.len() > 0 {
        let all = cut(groups);
        let head = groups.drop_last();
        let last = groups.last();
        let before = cut(head);
        let own = pieces(last.0, last.1);
        lemma_cut_covers(head, p);
        lemma_pieces(last.0, last.1);
        if covers(groups, p) {
            let i = choose|i: int|
                0 <= i < groups.len() && (#[trigger] groups[i]).0 <= p < groups[i].1;
            if i < head.len() {
                assert(head[i].0 <= p < head[i].1);
                let j = choose|j: int|
                    0 <= j < before.len() && (#[trigger] before[j]).0 <= p < before[j].1;
                assert(all[j] == before[j]);
            } else {
                assert(covers(own, p));
                let j = choose|j: int| 0 <= j < own.len() && (#[trigger] own[j]).0 <= p < own[j].1;
                assert(all[before.len() + j] == own[j]);
            }
        }
        if covers(all, p) {
            let j = choose|j: int| 0 <= j < all.len() && (#[trigger] all[j]).0 <= p < all[j].1;
            if j < before.len() {
                assert(before[j] == all[j]);
                let i = choose|i: int|
                    0 <= i < head.len() && (#[trigger] head[i]).0 <= p < head[i].1;
                assert(groups[i] == head[i]);
            } else {
                assert(own[j - before.len()] == all[j]);
                assert(groups[groups.len() - 1].0 <= p < groups[groups.len() - 1].1);
            }
        }
    }
}

/// Segments are not empty, lie in the recording, hold no more than the recogniser takes at
/// once, and follow each other without overlapping. Where nothing was detected there are
/// none.
pub proof fn lemma_segments_are_orderly(detected: Seq<(int, int)>, len: int)
    requires
        forward(merged(detected, len)),
    ensures
        ({
            let all = cut(merged(detected, len));
            &&& forall|i: int|
                0 <= i < all.len() ==> 0 <= (#[trigger] all[i]).0 < all[i].1 <= len && all[i].1
                    - all[i].0 <= MAX_CHUNK
            &&& forall|i: int, j: int|
                0 <= i < j < all.len() ==> (#[trigger] all[i]).1 <= (#[trigger] all[j]).0
            &&& detected.len() == 0 ==> all.len() == 0
        }),
{
    lemma_merged_shape(detected, len);
    lemma_cut(merged(detected, len), len);
}

/// Where detections are listed in order, the segments hold each of them, with the margin
/// before and behind it, as far as it lies in the recording.
pub proof fn lemma_segments_cover_speech(detected: Seq<(int, int)>, len: int, k: int, p: int)
    requires
        listed_in_order(detected),
        0 <= k < detected.len(),
        detected[k].0 - SEGMENT_MARGIN <= p < detected[k].1 + SEGMENT_MARGIN,
        0 <= p < len,
    ensures
        covers(cut(merged(detected, len)), p),
{
    lemma_merged_covers(detected, len, k, p);
    lemma_cut_covers(merged(detected, len), p);
}

proof fn lemma_last_group_ends(detected: Seq<(int, int)>, len: int)
    requires
        detected.len() > 0,
    ensures
        merged(detected, len).len() > 0,
        merged(detected, len).last().1 >= widened(detected.last(), len).1,
{
}

proof fn lemma_merged_gap(detected: Seq<(int, int)>, len: int, k: int, p: int)
    requires
        0 <= k < detected.len() - 1,
        widened(detected[k], len).1 <= p < widened(detected[k + 1], len).0,
        widened(detected[k + 1], len).0 <= widened(detected[k], len).1 + MERGE_GAP,
        p < widened(detected[k + 1], len).1,
        listed_in_order(detected),
    ensures
        covers(merged(detected, len), p) || exists|j: int|
            0 <= j <= k && p < widened(#[trigger] detected[j], len).0,
    decreases detected.len(),
{
    let head = detected.drop_last();
    let before = merged(head, len);
    let after = merged(detected, len);
    if k < detected.len() - 2 {
        assert(head[k] == detected[k] && head[k + 1] == detected[k + 1]);
        lemma_merged_gap(head, len, k, p);
        if covers(before, p) {
            let i = choose|i: int|
                0 <= i < before.len() && (#[trigger] before[i]).0 <= p < before[i].1;
            assert(after[i].0 == before[i].0 && before[i].1 <= after[i].1);
        } else {
            let j = choose|j: int| 0 <= j <= k && p < widened(#[trigger] head[j], len).0;
            assert(detected[j] == head[j]);
        }
    } else {
        assert(head.last() == detected[k]);
        lemma_last_group_ends(head, len);
        assert(detected.last() == detected[k + 1]);
        let last = before.last();
        assert(after.last().0 == last.0);
        lemma_last_group_begins(head.drop_last(), len, head.last());
        assert(head.drop_last().push(head.last()) =~= head);
        assert(listed_in_order(head));
        assert(last.0 <= widened(detected[k], len).0);
        if last.0 <= p {
            assert(after[after.len() - 1].0 <= p < after[after.len() - 1].1);
        } else {
            assert(p < widened(detected[k], len).0);
        }
    }
}

/// Where detections are listed in order, a gap between one and the next that is short once
/// both have their margins is held by the segments too.
pub proof fn lemma_segments_keep_short_gaps(detected: Seq<(int, int)>, len: int, k: int, p: int)
    requires
        listed_in_order(detected),
        0 <= k < detected.len() - 1,
        0 <= detected[k].0 <= detected[k].1,
        detected[k + 1].0 <= detected[k + 1].1,
        detected[k + 1].0 - detected[k].1 <= 2 * SEGMENT_MARGIN + MERGE_GAP,
        detected[k].0 <= p < detected[k + 1].1,
        0 <= p < len,
    ensures
        covers(cut(merged(detected, len)), p),
{
    let w = widened(detected[k], len);
    let n = widened(detected[k + 1], len);
    if w.0 <= p < w.1 {
        lemma_merged_covers(detected, len, k, p);
    } else if n.0 <= p < n.1 {
        lemma_merged_covers(detected, len, k + 1, p);
    } else {
        lemma_merged_gap(detected, len, k, p);
        if !covers(merged(detected, len), p) {
            let j = choose|j: int| 0 <= j <= k && p < widened(#[trigger] detected[j], len).0;
            assert(detected[j].0 <= detected[k].0);
        }
    }
    lemma_cut_covers(merged(detected, len), p);
}

/// Two segments that follow each other either are parts of one stretch, and then the first
/// has the greatest length and the second begins where it ends; or more than the gap lies
/// between them. So what is no longer than the recogniser takes at once is never cut.
pub proof fn lemma_segments_are_cut_only_when_full(detected: Seq<(int, int)>, len: int, i: int)
    requires
        forward(merged(detected, len)),
        0 <= i < cut(merged(detected, len)).len() - 1,
    ensures
        ({
            let one = cut(merged(detected, len))[i];
            let next = cut(merged(detected, len))[i + 1];
            ||| one.1 == next.0 && one.1 - one.0 == MAX_CHUNK
            ||| one.1 + MERGE_GAP < next.0
        }),
{
    lemma_merged_shape(detected, len);
    lemma_cut_joints(merged(detected, len), i);
}

proof fn lemma_cut_joints(groups: Seq<(int, int)>, i: int)
    requires
        forward(groups),
        forall|i: int|
            #![trigger groups[i]]
            0 <= i < groups.len() - 1 ==> groups[i].1 + MERGE_GAP < groups[i + 1].0,
        0 <= i < cut(groups).len() - 1,
    ensures
        ({
            let one = cut(groups)[i];
            let next = cut(groups)[i + 1];
            ||| one.1 == next.0 && one.1 - one.0 == MAX_CHUNK
            ||| one.1 + MERGE_GAP < next.0
        }),
    decreases groups.len(),
{
    let head = groups.drop_last();
    let last = groups.last();
    let before = cut(head);
    let own = pieces(last.0, last.1);
    let all = cut(groups);
    assert(groups[groups.len() - 1].0 <= groups[groups.len() - 1].1);
    lemma_pieces(last.0, last.1);
    lemma_full_pieces(last.0, last.1);
    if i + 1 < before.len() {
        lemma_cut_joints(head, i);
        assert(all[i] == before[i] && all[i + 1] == before[i + 1]);
    } else if i < before.len() {
        assert(all[i] == before[i] && all[i + 1] == own[0]);
        lemma_cut_end(head, i);
        let at = choose|at: int| 0 <= at < head.len() && before[i].1 <= (#[trigger] head[at]).1;
        lemma_later_group(groups, at, groups.len() - 1);
        assert(groups[at] == head[at]);
    } else {
        let j = i - before.len();
        assert(all[i] == own[j] && all[i + 1] == own[j + 1]);
    }
}

proof fn lemma_later_group(groups: Seq<(int, int)>, i: int, j: int)
    requires
        forward(groups),
        forall|i: int|
            #![trigger groups[i]]
            0 <= i < groups.len() - 1 ==> groups[i].1 + MERGE_GAP < groups[i + 1].0,
        0 <= i < j < groups.len(),
    ensures
        groups[i].1 + MERGE_GAP < groups[j].0,
    decreases j - i,
{
    if i + 1 < j {
        lemma_later_group(groups, i + 1, j);
        assert(groups[i].1 + MERGE_GAP < groups[i + 1].0);
        assert(groups[i + 1].0 <= groups[i + 1].1);
    } else {
        assert(groups[i].1 + MERGE_GAP < groups[i + 1].0);
    }
}

proof fn lemma_cut_end(groups: Seq<(int, int)>, i: int)
    requires
        0 <= i < cut(groups).len(),
    ensures
        exists|at: int| 0 <= at < groups.len() && cut(groups)[i].1 <= (#[trigger] groups[at]).1,
    decreases groups.len(),
{
    let head = groups.drop_last();
    let last = groups.last();
    let before = cut(head);
    if i < before.len() {
        lemma_cut_end(head, i);
        let at = choose|at: int| 0 <= at < head.len() && before[i].1 <= (#[trigger] head[at]).1;
        assert(groups[at] == head[at]);
    } else {
        lemma_pieces(last.0, last.1);
        assert(cut(groups)[i] == pieces(last.0, last.1)[i - before.len()]);
        assert(groups[groups.len() - 1] == last);
    }
}

proof fn lemma_full_pieces(start: int, end: int)
    ensures
        start < end ==> pieces(start, end).len() > 0 && pieces(start, end)[0].0 == start,
        forall|i: int|
            #![trigger pieces(start, end)[i]]
            0 <= i < pieces(start, end).len() - 1 ==> pieces(start, end)[i].1 - pieces(
                start,
                end,
            )[i].0 == MAX_CHUNK && pieces(start, end)[i].1 == pieces(start, end)[i + 1].0,
    decreases end - start,
{
    let all = pieces(start, end);
    if end - start > MAX_CHUNK {
        let next = start + MAX_CHUNK;
        lemma_full_pieces(next, end);
        let rest = pieces(next, end);
        assert forall|i: int|
            #![trigger all[i]]
            0 <= i < all.len() - 1 implies all[i].1 - all[i].0 == MAX_CHUNK && all[i].1 == all[i
            + 1].0 by {
            assert(all[i + 1] == rest[i]);
            if i > 0 {
                assert(all[i] == rest[i - 1]);
            }
        }
    }
}

/// A stretch that is no longer than the recogniser takes at once is one segment, itself. Of
/// a longer one the pieces follow each other from its beginning to its end, and all but the
/// last have the greatest length; so there are as few as possible.
pub proof fn lemma_pieces_are_full(start: int, end: int)
    requires
        start < end,
    ensures
        ({
            let all = pieces(start, end);
            &&& all.len() > 0
            &&& all[0].0 == start
            &&& all.last().1 == end
            &&& end - start <= MAX_CHUNK ==> all == seq![(start, end)]
            &&& 0 < all.last().1 - all.last().0 <= MAX_CHUNK
            &&& forall|i: int|
                #![trigger all[i]]
                0 <= i < all.len() - 1 ==> all[i].1 - all[i].0 == MAX_CHUNK && all[i].1 == all[i
                    + 1].0
        }),
    decreases end - start,
{
    lemma_full_pieces(start, end);
    lemma_pieces(start, end);
    if end - start > MAX_CHUNK {
        let next = start + MAX_CHUNK;
        lemma_pieces_are_full(next, end);
        assert(pieces(start, end).last() == pieces(next, end).last());
    }
}

/// Cutting a group loses nothing of it and adds nothing: segments hold the very positions
/// that the groups hold.
pub proof fn lemma_cut_keeps_positions(detected: Seq<(int, int)>, len: int, p: int)
    ensures
        covers(merged(detected, len), p) <==> covers(cut(merged(detected, len)), p),
{
    lemma_cut_covers(merged(detected, len), p);
}

/// Groups keep their distance: each begins more than the gap behind the one before it.
pub proof fn lemma_groups_keep_distance(detected: Seq<(int, int)>, len: int, i: int)
    requires
        0 <= i < merged(detected, len).len() - 1,
    ensures
        merged(detected, len)[i].1 + MERGE_GAP < merged(detected, len)[i + 1].0,
{
    lemma_merged_shape(detected, len);
}

/// Whether position `p` lies in speech or its margin.
pub open spec fn near_speech(detected: Seq<(int, int)>, p: int) -> bool {
    exists|k: int|
        0 <= k < detected.len() && (#[trigger] detected[k]).0 - SEGMENT_MARGIN <= p < detected[k].1
            + SEGMENT_MARGIN
}

/// Whether position `p` lies between the margins of two stretches of speech that are no
/// further apart than the gap.
pub open spec fn in_short_gap(detected: Seq<(int, int)>, p: int) -> bool {
    exists|j: int, k: int|
        0 <= j < detected.len() && 0 <= k < detected.len() && (#[trigger] detected[j]).1
            + SEGMENT_MARGIN <= p < (#[trigger] detected[k]).0 - SEGMENT_MARGIN <= detected[j].1
            + SEGMENT_MARGIN + MERGE_GAP
}

/// Whether a stretch of speech, margin included, ends at `end`.
pub open spec fn ends_at(detected: Seq<(int, int)>, len: int, end: int) -> bool {
    exists|k: int| 0 <= k < detected.len() && widened(#[trigger] detected[k], len).1 == end
}

proof fn lemma_more_detected(detected: Seq<(int, int)>, len: int, p: int)
    requires
        detected.len() > 0,
    ensures
        near_speech(detected.drop_last(), p) ==> near_speech(detected, p),
        in_short_gap(detected.drop_last(), p) ==> in_short_gap(detected, p),
        ends_at(detected.drop_last(), len, p) ==> ends_at(detected, len, p),
{
    let head = detected.drop_last();
    if near_speech(head, p) {
        let k = choose|k: int|
            0 <= k < head.len() && (#[trigger] head[k]).0 - SEGMENT_MARGIN <= p < head[k].1
                + SEGMENT_MARGIN;
        assert(detected[k] == head[k]);
    }
    if in_short_gap(head, p) {
        let (j, k) = choose|j: int, k: int|
            0 <= j < head.len() && 0 <= k < head.len() && (#[trigger] head[j]).1 + SEGMENT_MARGIN
                <= p < (#[trigger] head[k]).0 - SEGMENT_MARGIN <= head[j].1 + SEGMENT_MARGIN
                + MERGE_GAP;
        assert(detected[j] == head[j] && detected[k] == head[k]);
    }
    if ends_at(head, len, p) {
        let k = choose|k: int| 0 <= k < head.len() && widened(#[trigger] head[k], len).1 == p;
        assert(detected[k] == head[k]);
    }
}

proof fn lemma_group_ends(detected: Seq<(int, int)>, len: int, i: int)
    requires
        0 <= i < merged(detected, len).len(),
    ensures
        ends_at(detected, len, merged(detected, len)[i].1),
    decreases detected.len(),
{
    let before = merged(detected.drop_last(), len);
    let after = merged(detected, len);
    if i < before.len() && after[i].1 == before[i].1 {
        lemma_group_ends(detected.drop_last(), len, i);
        lemma_more_detected(detected, len, after[i].1);
    } else {
        assert(after[i].1 == widened(detected[detected.len() - 1], len).1);
    }
}

proof fn lemma_groups_hold_speech(detected: Seq<(int, int)>, len: int, i: int, p: int)
    requires
        0 <= i < merged(detected, len).len(),
        0 <= p < len,
        merged(detected, len)[i].0 <= p < merged(detected, len)[i].1,
    ensures
        near_speech(detected, p) || in_short_gap(detected, p),
    decreases detected.len(),
{
    let head = detected.drop_last();
    let before = merged(head, len);
    let after = merged(detected, len);
    let last = detected.len() - 1;
    let span = widened(detected[last], len);
    if i < before.len() && p < before[i].1 {
        lemma_groups_hold_speech(head, len, i, p);
        lemma_more_detected(detected, len, p);
    } else if span.0 <= p {
        assert(detected[last].0 - SEGMENT_MARGIN <= p < detected[last].1 + SEGMENT_MARGIN);
    } else {
        lemma_group_ends(head, len, i);
        lemma_more_detected(detected, len, before[i].1);
        let j = choose|j: int|
            0 <= j < detected.len() && widened(#[trigger] detected[j], len).1 == before[i].1;
        assert(detected[j].1 + SEGMENT_MARGIN <= p < detected[last].0 - SEGMENT_MARGIN);
    }
}

/// Segments hold nothing but speech, its margin, and short gaps between two stretches of it.
pub proof fn lemma_segments_hold_speech(detected: Seq<(int, int)>, len: int, p: int)
    requires
        covers(cut(merged(detected, len)), p),
    ensures
        near_speech(detected, p) || in_short_gap(detected, p),
{
    lemma_cut_keeps_positions(detected, len, p);
    let all = merged(detected, len);
    let i = choose|i: int| 0 <= i < all.len() && (#[trigger] all[i]).0 <= p < all[i].1;
    lemma_merged_shape(detected, len);
    assert(0 <= all[i].0 && all[i].1 <= len);
    lemma_groups_hold_speech(detected, len, i, p);
}

/// Detections that begin no further behind the end of the recording than the margin form
/// groups that can be cut.
pub proof fn lemma_detected_inside(detected: Seq<(int, int)>, len: int)
    requires
        0 <= len,
        forall|i: int|
            0 <= i < detected.len() ==> 0 <= (#[trigger] detected[i]).0 <= detected[i].1
                && detected[i].0 <= len + SEGMENT_MARGIN,
    ensures
        forward(merged(detected, len)),
    decreases detected.len(),
{
    if detected.len() > 0 {
        let head = detected.drop_last();
        assert forall|i: int| 0 <= i < head.len() implies 0 <= (#[trigger] head[i]).0
            <= head[i].1 && head[i].0 <= len + SEGMENT_MARGIN by {
            assert(head[i] == detected[i]);
        }
        lemma_detected_inside(head, len);
        let before = merged(head, len);
        let after = merged(detected, len);
        assert(0 <= detected[detected.len() - 1].0);
        assert forall|i: int| 0 <= i < after.len() implies (#[trigger] after[i]).0 <= after[i].1 by {
            if i < before.len() {
                assert(before[i].0 <= before[i].1);
            }
        }
    }
}

/// At the rate at which audio is recognised the margin lasts 0.8 seconds, the gap 0.6 seconds,
/// and the longest segment 20 seconds.
pub proof fn lemma_durations()
    ensures
        TARGET_SAMPLE_RATE == 16_000,
        10 * SEGMENT_MARGIN == 8 * TARGET_SAMPLE_RATE,
        10 * MERGE_GAP == 6 * TARGET_SAMPLE_RATE,
        MAX_CHUNK == 20 * TARGET_SAMPLE_RATE,
        VAD_CHUNK == 512,
{
}

} // verus!
