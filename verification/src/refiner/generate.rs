//! How one answer of the language model is produced, token by token.
//!
//! The model keeps a cache of the tokens it has read. The instructions at the head of every
//! prompt stay in it; only what follows them is read anew.
use vstd::prelude::*;

use crate::text;

verus! {

/// How many tokens `a` and `b` begin with in common.
pub open spec fn shared_len(a: Seq<i32>, b: Seq<i32>) -> nat
    decreases a.len(),
{
    if a.len() > 0 && b.len() > 0 && a[0] == b[0] {
        1 + shared_len(a.drop_first(), b.drop_first())
    } else {
        0
    }
}

proof fn lemma_shared_len(a: Seq<i32>, b: Seq<i32>, n: int)
    requires
        0 <= n <= a.len(),
        n <= b.len(),
        forall|i: int| 0 <= i < n ==> a[i] == b[i],
        n < a.len() && n < b.len() ==> a[n] != b[n],
    ensures
        shared_len(a, b) == n,
    decreases n,
{
    if n > 0 {
        assert(a[0] == b[0]);
        lemma_shared_len(a.drop_first(), b.drop_first(), n - 1);
    }
}

/// The shared head is a prefix of both sequences, and no longer prefix is shared.
pub proof fn lemma_shared_is_longest(a: Seq<i32>, b: Seq<i32>)
    ensures
        shared_len(a, b) <= a.len(),
        shared_len(a, b) <= b.len(),
        a.take(shared_len(a, b) as int) == b.take(shared_len(a, b) as int),
        shared_len(a, b) < a.len() && shared_len(a, b) < b.len() ==> a[shared_len(a, b) as int]
            != b[shared_len(a, b) as int],
    decreases a.len(),
{
    if a.len() > 0 && b.len() > 0 && a[0] == b[0] {
        lemma_shared_is_longest(a.drop_first(), b.drop_first());
        let n = shared_len(a.drop_first(), b.drop_first()) as int;
        assert forall|i: int| 0 <= i < n + 1 implies a[i] == b[i] by {
            if i > 0 {
                assert(a.drop_first().take(n)[i - 1] == b.drop_first().take(n)[i - 1]);
            }
        }
        assert(a.take(n + 1) == b.take(n + 1));
    } else {
        assert(a.take(0) == b.take(0));
    }
}

/// How many tokens `a` and `b` begin with in common.
pub fn common_prefix_len(a: &[i32], b: &[i32]) -> (n: usize)
    ensures
        n == shared_len(a@, b@),
        n <= a@.len(),
        n <= b@.len(),
{
    let mut n: usize = 0;
    while n < a.len() && n < b.len() && a[n] == b[n]
        invariant
            n <= a@.len(),
            n <= b@.len(),
            forall|i: int| 0 <= i < n ==> a@[i] == b@[i],
        decreases a@.len() - n,
    {
        n = n + 1;
    }
    proof {
        lemma_shared_len(a@, b@, n as int);
    }
    n
}

/// One token that the model is to read.
#[derive(Clone, Copy, PartialEq, Eq, Debug)]
pub struct BatchEntry {
    pub token: i32,
    /// Its position in the context.
    pub pos: i32,
    /// Whether the model is asked what follows it.
    pub logits: bool,
}

/// What of the cache is cleared before a prompt is read.
#[derive(Clone, Copy, PartialEq, Eq, Debug)]
pub enum CacheClear {
    All,
    /// All from this position on.
    From(u32),
}

/// How a prompt is read.
pub struct Prefill {
    pub clear: CacheClear,
    /// The tokens that a batch must have room for.
    pub capacity: usize,
    /// The tokens that are read anew.
    pub batch: Vec<BatchEntry>,
}

/// What of the cache is cleared, where its first `kept` tokens are to stay.
pub open spec fn clear_for(kept: int) -> CacheClear {
    if kept > 0 {
        CacheClear::From(kept as u32)
    } else {
        CacheClear::All
    }
}

/// The tokens from position `kept` on, each at its own position. The model is asked what
/// follows the last of them.
pub open spec fn batch_for(tokens: Seq<i32>, kept: int) -> Seq<BatchEntry> {
    Seq::new(
        (tokens.len() - kept) as nat,
        |i: int|
            BatchEntry {
                token: tokens[kept + i],
                pos: (kept + i) as i32,
                logits: kept + i == tokens.len() - 1,
            },
    )
}

/// Plans how the model reads `tokens`, where `system_tokens` are in the cache already: the
/// shared head is kept, the rest is read at its own positions, and the model is asked what
/// follows the last token.
pub fn plan_prefill(tokens: &[i32], system_tokens: &[i32]) -> (r: Prefill)
    requires
        tokens@.len() <= i32::MAX,
    ensures
        r.clear == clear_for(shared_len(tokens@, system_tokens@) as int),
        r.batch@ == batch_for(tokens@, shared_len(tokens@, system_tokens@) as int),
        r.capacity == if r.batch@.len() == 0 {
            1
        } else {
            r.batch@.len()
        },
{
    let kept: usize = common_prefix_len(tokens, system_tokens);
    let clear = if kept > 0 {
        CacheClear::From(kept as u32)
    } else {
        CacheClear::All
    };
    let capacity: usize = if tokens.len() > kept {
        tokens.len() - kept
    } else {
        1
    };
    let mut batch: Vec<BatchEntry> = Vec::new();
    let mut i: usize = kept;
    while i < tokens.len()
        invariant
            kept <= i <= tokens@.len() <= i32::MAX,
            batch@ == batch_for(tokens@, kept as int).take(i - kept),
        decreases tokens@.len() - i,
    {
        batch.push(BatchEntry { token: tokens[i], pos: i as i32, logits: i == tokens.len() - 1 });
        i = i + 1;
    }
    assert(batch@ == batch_for(tokens@, kept as int));
    Prefill { clear, capacity, batch }
}

/// What a cache holds after some of it was cleared.
pub open spec fn cleared(cache: Seq<i32>, clear: CacheClear) -> Seq<i32> {
    match clear {
        CacheClear::All => Seq::empty(),
        CacheClear::From(pos) => if pos <= cache.len() {
            cache.take(pos as int)
        } else {
            cache
        },
    }
}

/// The tokens of a batch.
pub open spec fn batch_tokens(batch: Seq<BatchEntry>) -> Seq<i32> {
    Seq::new(batch.len(), |i: int| batch[i].token)
}

/// Whether `cache` begins with `head`.
pub open spec fn begins_with(cache: Seq<i32>, head: Seq<i32>) -> bool {
    head.len() <= cache.len() && cache.take(head.len() as int) == head
}

/// What a cache holds after `tokens` were read as planned.
pub open spec fn cache_read(cache: Seq<i32>, tokens: Seq<i32>, system_tokens: Seq<i32>) -> Seq<i32> {
    let kept = shared_len(tokens, system_tokens) as int;
    cleared(cache, clear_for(kept)) + batch_tokens(batch_for(tokens, kept))
}

/// Where the cache begins with the tokens of the instructions, reading a prompt as planned
/// leaves exactly the prompt in it: every token that is read goes to the first free
/// position, and of no token but the last the model is asked what follows. A prompt that
/// itself begins with the instructions leaves the cache fit for the next one.
pub proof fn lemma_prefill_leaves_prompt(tokens: Seq<i32>, system_tokens: Seq<i32>, cache: Seq<i32>)
    requires
        begins_with(cache, system_tokens),
        tokens.len() <= i32::MAX,
    ensures
        ({
            let kept = shared_len(tokens, system_tokens) as int;
            let rest = cleared(cache, clear_for(kept));
            let batch = batch_for(tokens, kept);
            &&& cache_read(cache, tokens, system_tokens) == tokens
            &&& forall|i: int|
                0 <= i < batch.len() ==> (#[trigger] batch[i]).pos == rest.len() + i
            &&& forall|i: int|
                0 <= i < batch.len() ==> ((#[trigger] batch[i]).logits <==> i == batch.len() - 1)
            &&& begins_with(tokens, system_tokens) ==> begins_with(
                cache_read(cache, tokens, system_tokens),
                system_tokens,
            )
        }),
{
    lemma_shared_is_longest(tokens, system_tokens);
    let kept = shared_len(tokens, system_tokens) as int;
    let rest = cleared(cache, clear_for(kept));
    let batch = batch_for(tokens, kept);
    assert(rest == tokens.take(kept)) by {
        assert forall|i: int| 0 <= i < kept implies cache[i] == tokens[i] by {
            assert(cache.take(system_tokens.len() as int)[i] == system_tokens[i]);
            assert(tokens.take(kept)[i] == system_tokens.take(kept)[i]);
        }
    }
    assert(rest + batch_tokens(batch) == tokens);
}

/// What a decoder of UTF-8 makes of `bytes`, where more may follow them.
pub uninterp spec fn utf8_stream_text(bytes: Seq<u8>) -> Seq<char>;

/// Whether `bytes` begin with the byte order mark of UTF-8.
pub open spec fn has_byte_order_mark(bytes: Seq<u8>) -> bool {
    bytes.len() >= 3 && bytes[0] == 0xef && bytes[1] == 0xbb && bytes[2] == 0xbf
}

/// `encoding_rs::Decoder::decode_to_string` on a new decoder for UTF-8, which is given all
/// of `bytes` at once and is not told that they are the last. What it makes of them depends
/// on them alone. Of bytes that are UTF-8 throughout, without a byte order mark, it makes the
/// characters that they encode. Left unsaid is what it makes of others: it replaces what is
/// malformed, leaves an unfinished character at the end out, and goes by a byte order mark.
#[verifier::external_body]
fn decode_stream(bytes: &[u8]) -> (r: String)
    requires
        bytes@.len() <= usize::MAX / 8,
    ensures
        r@ == utf8_stream_text(bytes@),
        vstd::utf8::valid_utf8(bytes@) && !has_byte_order_mark(bytes@) ==> r@
            == vstd::utf8::decode_utf8(bytes@),
{
    let mut decoder = encoding_rs::UTF_8.new_decoder();
    let room = decoder.max_utf8_buffer_length(bytes.len()).unwrap_or_default();
    let mut text = String::with_capacity(room);
    let _ = decoder.decode_to_string(bytes, &mut text, false);
    text
}

/// The model of an answer in the making.
pub struct GenerationView {
    /// The position of the next token.
    pub pos: int,
    /// The tokens that may still follow.
    pub left: nat,
    /// The bytes of the text so far.
    pub output: Seq<u8>,
}

impl GenerationView {
    /// The answer after the model wrote a token that stands for `piece`.
    pub open spec fn emitted(self, piece: Seq<u8>) -> GenerationView {
        GenerationView {
            pos: self.pos + 1,
            left: (self.left - 1) as nat,
            output: self.output + piece,
        }
    }

    /// The answer after the model wrote tokens that stand for `pieces`, one after the other.
    pub open spec fn written(self, pieces: Seq<Seq<u8>>) -> GenerationView
        decreases pieces.len(),
    {
        if pieces.len() == 0 {
            self
        } else {
            self.emitted(pieces[0]).written(pieces.drop_first())
        }
    }
}

/// An answer holds what its tokens stand for, in order, however the characters are spread
/// over them; its tokens take consecutive positions.
pub proof fn lemma_written(v: GenerationView, pieces: Seq<Seq<u8>>)
    requires
        pieces.len() <= v.left,
    ensures
        v.written(pieces) == (GenerationView {
            pos: v.pos + pieces.len(),
            left: (v.left - pieces.len()) as nat,
            output: v.output + text::concatenated(pieces),
        }),
    decreases pieces.len(),
{
    if pieces.len() == 0 {
        assert(v.output + text::concatenated(pieces) == v.output);
    } else {
        lemma_written(v.emitted(pieces[0]), pieces.drop_first());
        assert((v.output + pieces[0]) + text::concatenated(pieces.drop_first()) == v.output + (
        pieces[0] + text::concatenated(pieces.drop_first())));
    }
}

/// An answer of the model in the making.
pub struct Generation {
    pos: i32,
    left: usize,
    output: Vec<u8>,
}

impl View for Generation {
    type V = GenerationView;

    closed spec fn view(&self) -> GenerationView {
        GenerationView { pos: self.pos as int, left: self.left as nat, output: self.output@ }
    }
}

impl Generation {
    /// The positions that may still follow can be written as the model counts them, and the
    /// text can be held in memory.
    pub open spec fn wf(&self) -> bool {
        &&& 0 <= self@.pos && self@.pos + self@.left <= i32::MAX
        &&& self@.output.len() <= usize::MAX / 8
    }

    /// Begins an answer of at most `budget` tokens behind a prompt of `prompt_tokens`.
    pub fn begin(prompt_tokens: usize, budget: usize) -> (r: Generation)
        requires
            prompt_tokens + budget <= i32::MAX,
        ensures
            r.wf(),
            r@ == (GenerationView {
                pos: prompt_tokens as int,
                left: budget as nat,
                output: Seq::empty(),
            }),
    {
        Generation { pos: prompt_tokens as i32, left: budget, output: Vec::new() }
    }

    /// Whether another token is to be asked for.
    pub fn wants_token(&self) -> (r: bool)
        ensures
            r == (self@.left > 0),
    {
        self.left > 0
    }

    /// Whether memory can hold `piece` behind the text so far.
    pub fn has_room(&self, piece: &[u8]) -> (r: bool)
        requires
            self.wf(),
        ensures
            r == (self@.output.len() + piece@.len() <= usize::MAX / 8),
    {
        piece.len() <= usize::MAX / 8 - self.output.len()
    }

    /// Takes a token that the model wrote, and the bytes that it stands for. The model is to
    /// read it next.
    pub fn accept(&mut self, token: i32, piece: &[u8]) -> (r: BatchEntry)
        requires
            old(self).wf(),
            old(self)@.left > 0,
            old(self)@.output.len() + piece@.len() <= usize::MAX / 8,
        ensures
            final(self).wf(),
            r == (BatchEntry { token, pos: old(self)@.pos as i32, logits: true }),
            final(self)@ == old(self)@.emitted(piece@),
    {
        let pos: i32 = self.pos;
        self.output.extend_from_slice(piece);
        assert(self.output@ == old(self)@.output + piece@);
        self.left = self.left - 1;
        self.pos = pos + 1;
        BatchEntry { token, pos, logits: true }
    }

    /// Takes note that the model marked the end of its answer.
    pub fn end(&mut self)
        requires
            old(self).wf(),
        ensures
            final(self).wf(),
            final(self)@ == (GenerationView { left: 0, ..old(self)@ }),
    {
        self.left = 0;
    }

    /// The text of the answer. Where the bytes of its tokens are together the UTF-8 of some
    /// text, it is that text, even where a character was spread over several tokens.
    pub fn into_text(self) -> (r: String)
        requires
            self.wf(),
        ensures
            r@ == utf8_stream_text(self@.output),
            vstd::utf8::valid_utf8(self@.output) && !has_byte_order_mark(self@.output) ==> r@
                == vstd::utf8::decode_utf8(self@.output),
    {
        decode_stream(self.output.as_slice())
    }
}

} // verus!
