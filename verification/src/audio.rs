//! How audio is walked through: frame by frame, and in overlapping windows.
use std::ops::Range;

use vstd::prelude::*;

verus! {

/// The stretch from `start` to `len`, cut into pieces of `size`; the last one may be
/// shorter.
pub open spec fn chunk_seq(start: int, len: int, size: int) -> Seq<(int, int)>
    decreases len - start,
{
    if start >= len || size <= 0 {
        Seq::empty()
    } else if start + size >= len {
        seq![(start, len)]
    } else {
        seq![(start, start + size)] + chunk_seq(start + size, len, size)
    }
}

/// The ranges of a list, as numbers.
pub open spec fn range_seq(ranges: Seq<Range<usize>>) -> Seq<(int, int)> {
    Seq::new(ranges.len(), |i: int| (ranges[i].start as int, ranges[i].end as int))
}

/// There is one pair for each range, of its two ends.
pub proof fn lemma_range_seq(ranges: Seq<Range<usize>>, i: int)
    requires
        0 <= i < ranges.len(),
    ensures
        range_seq(ranges).len() == ranges.len(),
        range_seq(ranges)[i] == (ranges[i].start as int, ranges[i].end as int),
{
}

/// Chunks follow each other without a gap from the beginning to the end; all but the last
/// have the full size, and the last is not empty.
pub proof fn lemma_chunks(start: int, len: int, size: int)
    requires
        start < len,
        size > 0,
    ensures
        ({
            let all = chunk_seq(start, len, size);
            &&& all.len() > 0
            &&& all[0].0 == start
            &&& all.last().1 == len
            &&& forall|i: int|
                #![trigger all[i]]
                0 <= i < all.len() ==> start <= all[i].0 < all[i].1 <= len && all[i].1 - all[i].0
                    <= size
            &&& forall|i: int|
                #![trigger all[i]]
                0 <= i < all.len() - 1 ==> all[i].1 == all[i + 1].0 && all[i].1 - all[i].0 == size
        }),
    decreases len - start,
{
    let all = chunk_seq(start, len, size);
    if start + size < len {
        lemma_chunks(start + size, len, size);
        let rest = chunk_seq(start + size, len, size);
        assert forall|i: int|
            #![trigger all[i]]
            0 <= i < all.len() implies start <= all[i].0 < all[i].1 <= len && all[i].1 - all[i].0
            <= size by {
            if i > 0 {
                assert(all[i] == rest[i - 1]);
            }
        }
        assert forall|i: int|
            #![trigger all[i]]
            0 <= i < all.len() - 1 implies all[i].1 == all[i + 1].0 && all[i].1 - all[i].0
            == size by {
            assert(all[i + 1] == rest[i]);
            if i > 0 {
                assert(all[i] == rest[i - 1]);
            }
        }
        assert(all.last() == rest.last());
    }
}

/// Cuts `len` samples into chunks of `size`.
pub fn chunks(len: usize, size: usize) -> (r: Vec<Range<usize>>)
    requires
        size > 0,
    ensures
        range_seq(r@) == chunk_seq(0, len as int, size as int),
{
    let mut r: Vec<Range<usize>> = Vec::new();
    let ghost all = chunk_seq(0, len as int, size as int);
    let mut start: usize = 0;
    assert(range_seq(r@) + all == all);
    while start < len
        invariant
            start <= len,
            size > 0,
            all == chunk_seq(0, len as int, size as int),
            range_seq(r@) + chunk_seq(start as int, len as int, size as int) == all,
        decreases len - start,
    {
        let end: usize = if len - start > size {
            start + size
        } else {
            len
        };
        let ghost before = range_seq(r@);
        let ghost rest = chunk_seq(start as int, len as int, size as int);
        r.push(start..end);
        proof {
            assert(range_seq(r@) == before.push((start as int, end as int)));
            let tail = chunk_seq(end as int, len as int, size as int);
            assert(rest == seq![(start as int, end as int)] + tail);
            assert(before + rest == range_seq(r@) + tail);
        }
        start = end;
    }
    r
}

/// Brings audio of several channels down to one. Of two channels `average` makes one, frame
/// by frame, and a last frame that lacks its second sample is taken as it is; of more than
/// two the first is taken.
pub fn downmix<T: Copy, F: Fn(T, T) -> T>(samples: &[T], channels: u16, average: F) -> (r: Vec<T>)
    requires
        forall|a: T, b: T| call_requires(average, (a, b)),
    ensures
        channels < 2 ==> r@ == samples@,
        channels >= 2 ==> ({
            let frames = chunk_seq(0, samples@.len() as int, channels as int);
            &&& r@.len() == frames.len()
            &&& forall|i: int|
                #![trigger r@[i]]
                0 <= i < frames.len() ==> if channels == 2 && frames[i].1 - frames[i].0 == 2 {
                    call_ensures(
                        average,
                        (samples@[frames[i].0], samples@[frames[i].0 + 1]),
                        r@[i],
                    )
                } else {
                    r@[i] == samples@[frames[i].0]
                }
        }),
{
    let mut r: Vec<T> = Vec::new();
    if channels < 2 {
        let mut i: usize = 0;
        while i < samples.len()
            invariant
                i <= samples@.len(),
                r@ == samples@.take(i as int),
            decreases samples@.len() - i,
        {
            r.push(samples[i]);
            i = i + 1;
        }
        return r;
    }
    let frames = chunks(samples.len(), channels as usize);
    let ghost spans = chunk_seq(0, samples@.len() as int, channels as int);
    proof {
        if samples@.len() > 0 {
            lemma_chunks(0, samples@.len() as int, channels as int);
        }
        assert(range_seq(frames@).len() == frames@.len());
    }
    let mut i: usize = 0;
    while i < frames.len()
        invariant
            i <= frames@.len() == spans.len(),
            channels >= 2,
            range_seq(frames@) == spans,
            forall|a: T, b: T| call_requires(average, (a, b)),
            forall|j: int|
                #![trigger spans[j]]
                0 <= j < spans.len() ==> 0 <= spans[j].0 < spans[j].1 <= samples@.len(),
            r@.len() == i,
            forall|j: int|
                #![trigger r@[j]]
                0 <= j < i ==> if channels == 2 && spans[j].1 - spans[j].0 == 2 {
                    call_ensures(average, (samples@[spans[j].0], samples@[spans[j].0 + 1]), r@[j])
                } else {
                    r@[j] == samples@[spans[j].0]
                },
        decreases frames@.len() - i,
    {
        let start: usize = frames[i].start;
        let end: usize = frames[i].end;
        assert(spans[i as int] == (start as int, end as int));
        if channels == 2 && end - start == 2 {
            r.push(average(samples[start], samples[start + 1]));
        } else {
            r.push(samples[start]);
        }
        i = i + 1;
    }
    r
}

/// Samples of a window that loudness is measured in: 20 milliseconds.
pub const LEVEL_FRAME: usize = 320;

/// Samples from one such window to the next.
pub const LEVEL_HOP: usize = 160;

/// Where the windows begin in which the loudness of `len` samples is measured: every half
/// window, as long as a whole one fits.
pub open spec fn level_starts(start: int, len: int) -> Seq<int>
    decreases len - start,
{
    if start + LEVEL_FRAME > len {
        Seq::empty()
    } else {
        seq![start] + level_starts(start + LEVEL_HOP, len)
    }
}

/// The windows in which the loudness of `len` samples is measured.
pub fn level_frames(len: usize) -> (r: Vec<Range<usize>>)
    ensures
        r@.len() == level_starts(0, len as int).len(),
        forall|i: int|
            0 <= i < r@.len() ==> (#[trigger] r@[i]).start == level_starts(0, len as int)[i]
                && r@[i].end == r@[i].start + LEVEL_FRAME && r@[i].end <= len,
{
    let mut r: Vec<Range<usize>> = Vec::new();
    let ghost all = level_starts(0, len as int);
    let mut start: usize = 0;
    while start <= len && len - start >= LEVEL_FRAME
        invariant
            start <= len,
            all == level_starts(0, len as int),
            r@.len() + level_starts(start as int, len as int).len() == all.len(),
            forall|i: int|
                0 <= i < r@.len() ==> (#[trigger] r@[i]).start == all[i] && r@[i].end == r@[i].start
                    + LEVEL_FRAME && r@[i].end <= len,
            forall|i: int|
                0 <= i < level_starts(start as int, len as int).len() ==> (
                #[trigger] level_starts(start as int, len as int)[i]) == all[r@.len() + i],
        decreases len - start,
    {
        let ghost rest = level_starts(start as int, len as int);
        let ghost tail = level_starts(start + LEVEL_HOP, len as int);
        proof {
            assert(rest[0] == start);
            assert forall|i: int| 0 <= i < tail.len() implies (#[trigger] tail[i]) == all[r@.len() + 1
                + i] by {
                assert(tail[i] == rest[i + 1]);
            }
        }
        r.push(start..start + LEVEL_FRAME);
        start = start + LEVEL_HOP;
    }
    r
}

/// Loudness is measured in windows that begin every half window, from the beginning on, and
/// in all of them that lie in the audio: the window at place `i` begins at `i` half windows,
/// and there is one exactly where a whole one fits.
pub proof fn lemma_level_windows(len: int, i: int)
    requires
        0 <= len,
        0 <= i,
    ensures
        i < level_starts(0, len).len() <==> i * LEVEL_HOP + LEVEL_FRAME <= len,
        i < level_starts(0, len).len() ==> level_starts(0, len)[i] == i * LEVEL_HOP,
{
    lemma_level_starts(0, len, i);
}

proof fn lemma_level_starts(start: int, len: int, i: int)
    requires
        0 <= start,
        0 <= i,
    ensures
        i < level_starts(start, len).len() <==> start + i * LEVEL_HOP + LEVEL_FRAME <= len,
        i < level_starts(start, len).len() ==> level_starts(start, len)[i] == start + i * LEVEL_HOP,
    decreases i,
{
    if i > 0 && start + LEVEL_FRAME <= len {
        lemma_level_starts(start + LEVEL_HOP, len, i - 1);
        assert(level_starts(start, len).len() == 1 + level_starts(start + LEVEL_HOP, len).len());
    }
}

/// The chunk at place `i` begins at `i` times the size, and there is one exactly where audio
/// is left; it goes on to the next, or to the end.
pub proof fn lemma_chunk_places(len: int, size: int, i: int)
    requires
        size > 0,
        0 <= len,
        0 <= i,
    ensures
        i < chunk_seq(0, len, size).len() <==> i * size < len,
        i < chunk_seq(0, len, size).len() ==> chunk_seq(0, len, size)[i] == (
            i * size,
            if (i + 1) * size < len {
                (i + 1) * size
            } else {
                len
            },
        ),
{
    lemma_chunk_from(0, len, size, i);
}

proof fn lemma_chunk_from(start: int, len: int, size: int, i: int)
    requires
        size > 0,
        0 <= i,
    ensures
        i < chunk_seq(start, len, size).len() <==> start + i * size < len,
        i < chunk_seq(start, len, size).len() ==> chunk_seq(start, len, size)[i] == (
            start + i * size,
            if start + (i + 1) * size < len {
                start + (i + 1) * size
            } else {
                len
            },
        ),
    decreases i,
{
    assert((i + 1) * size == i * size + size) by (nonlinear_arith);
    assert(i * size >= 0) by (nonlinear_arith)
        requires
            i >= 0,
            size > 0,
    ;
    if i > 0 {
        assert(i * size == (i - 1) * size + size) by (nonlinear_arith);
        assert((i - 1) * size >= 0) by (nonlinear_arith)
            requires
                i > 0,
                size > 0,
        ;
        if start + size < len {
            lemma_chunk_from(start + size, len, size, i - 1);
            let rest = chunk_seq(start + size, len, size);
            assert(chunk_seq(start, len, size).len() == 1 + rest.len());
        }
    } else {
        assert(0 * size == 0) by (nonlinear_arith);
    }
}

/// At 16000 samples per second a window for loudness lasts 20 milliseconds, and half a window
/// is from one to the next.
pub proof fn lemma_level_window_lasts()
    ensures
        50 * LEVEL_FRAME == 16_000,
        2 * LEVEL_HOP == LEVEL_FRAME,
{
}

} // verus!
