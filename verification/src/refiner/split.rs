//! Cutting a transcript into pieces that fit the language model.
use vstd::prelude::*;

use crate::text;

verus! {

/// Characters that a window of the transcript holds at most.
pub const WINDOW_CHAR_BUDGET: usize = 1500;

/// Characters after which a sentence is cut even where no boundary stands.
pub const HARD_LIMIT: usize = 800;

/// Whether a sentence ends with `ch`, where `next` follows it.
pub open spec fn boundary(ch: char, next: Option<char>) -> bool {
    ||| ch == '。'
    ||| ch == '！'
    ||| ch == '？'
    ||| ch == '!'
    ||| ch == '?'
    ||| ch == '；'
    ||| ch == ';'
    ||| ch == '\n'
    ||| ch == '.' && (next matches Some(n) ==> text::white_space(n))
}

/// Of all characters the eight sentence marks end a sentence wherever they stand, the full
/// stop only at the end or before white space, and nothing else ever does.
pub proof fn lemma_boundary(ch: char, next: char)
    ensures
        boundary(ch, None) <==> seq!['。', '！', '？', '!', '?', '；', ';', '\n', '.'].contains(ch),
        boundary(ch, Some(next)) <==> boundary(ch, None) && (ch == '.' ==> text::white_space(next)),
{
    let marks = seq!['。', '！', '？', '!', '?', '；', ';', '\n', '.'];
    assert(marks[0] == '。' && marks[1] == '！' && marks[2] == '？' && marks[3] == '!' && marks[4]
        == '?' && marks[5] == '；' && marks[6] == ';' && marks[7] == '\n' && marks[8] == '.');
}

/// Whether a sentence of `s` ends at position `i`.
pub open spec fn boundary_at(s: Seq<char>, i: int) -> bool {
    boundary(
        s[i],
        if i + 1 < s.len() {
            Some(s[i + 1])
        } else {
            None
        },
    )
}

/// Whether a sentence ends at a position is settled by the character there and the one
/// behind it, and at the end of the text by the character alone.
pub proof fn lemma_boundary_at(s: Seq<char>, ch: char, next: char, rest: Seq<char>)
    ensures
        boundary_at(s.push(ch), s.len() as int) == boundary(ch, None),
        boundary_at(s.push(ch).push(next) + rest, s.len() as int) == boundary(ch, Some(next)),
{
    let all = s.push(ch).push(next) + rest;
    assert(all[s.len() as int] == ch && all[s.len() as int + 1] == next);
}

/// Length of the first sentence of `s`, given that it holds at least `n` characters.
pub open spec fn sentence_len(s: Seq<char>, n: int) -> int
    decreases s.len() - n,
{
    if n >= s.len() || n >= HARD_LIMIT || boundary_at(s, n - 1) {
        n
    } else {
        sentence_len(s, n + 1)
    }
}

/// The sentences of `s`: each ends at the first boundary, or at the limit, or with `s`.
pub open spec fn sentences(s: Seq<char>) -> Seq<Seq<char>>
    decreases s.len(),
{
    if s.len() == 0 {
        Seq::empty()
    } else {
        let n = sentence_len(s, 1);
        proof {
            lemma_sentence_len(s, 1);
        }
        seq![s.take(n)] + sentences(s.skip(n))
    }
}

/// A sentence holds no more than the text, and no more than the limit.
pub proof fn lemma_sentence_len(s: Seq<char>, n: int)
    requires
        1 <= n <= s.len(),
        n <= HARD_LIMIT,
    ensures
        n <= sentence_len(s, n) <= s.len(),
        sentence_len(s, n) <= HARD_LIMIT,
    decreases s.len() - n,
{
    if !(n >= s.len() || n >= HARD_LIMIT || boundary_at(s, n - 1)) {
        lemma_sentence_len(s, n + 1);
    }
}

/// Whether a sentence ends with `ch`, where `next` follows it: the Chinese and Latin
/// sentence marks and the line feed always end one, a full stop only before white space
/// or the end.
pub fn is_boundary(ch: char, next: Option<&char>) -> (r: bool)
    ensures
        r == boundary(
            ch,
            match next {
                Some(n) => Some(*n),
                None => None,
            },
        ),
{
    if ch == '。' || ch == '！' || ch == '？' || ch == '!' || ch == '?' || ch == '；' || ch == ';'
        || ch == '\n' {
        true
    } else if ch == '.' {
        match next {
            Some(n) => text::is_whitespace(*n),
            None => true,
        }
    } else {
        false
    }
}

/// Cuts `content` into its sentences.
pub fn split_sentences(content: &str) -> (parts: Vec<String>)
    ensures
        text::texts(parts@) == sentences(content@),
{
    let chars = text::chars_of(content);
    let mut parts: Vec<String> = Vec::new();
    let mut start: usize = 0;
    let mut i: usize = 0;
    proof {
        assert(content@.skip(0) == content@);
        assert(text::texts(parts@) + sentences(content@) == sentences(content@));
    }
    while i < chars.len()
        invariant
            chars@ == content@,
            start <= i <= chars@.len(),
            i - start < HARD_LIMIT,
            text::texts(parts@) + sentences(content@.skip(start as int)) == sentences(content@),
            start < i < chars@.len() ==> sentence_len(content@.skip(start as int), 1)
                == sentence_len(content@.skip(start as int), i - start + 1),
            start < i == chars@.len() ==> sentence_len(content@.skip(start as int), 1) == i - start,
        decreases chars@.len() - i,
    {
        let next: Option<&char> = if i + 1 < chars.len() {
            Some(&chars[i + 1])
        } else {
            None
        };
        let ghost rest = content@.skip(start as int);
        let ghost n = i - start + 1;
        let ends = is_boundary(chars[i], next);
        assert(ends == boundary_at(rest, n - 1));
        i = i + 1;
        if ends || i - start >= HARD_LIMIT {
            proof {
                assert(sentence_len(rest, 1) == n);
                assert(rest.take(n) == content@.subrange(start as int, i as int));
                assert(rest.skip(n) == content@.skip(i as int));
            }
            let ghost before = parts@;
            parts.push(text::string_of(&chars, start, i));
            proof {
                assert(text::texts(parts@) == text::texts(before).push(rest.take(n)));
                assert(text::texts(before) + (seq![rest.take(n)] + sentences(rest.skip(n)))
                    == text::texts(parts@) + sentences(content@.skip(i as int)));
            }
            start = i;
        }
    }
    if start < chars.len() {
        let ghost rest = content@.skip(start as int);
        let ghost n = rest.len() as int;
        let ghost before = parts@;
        parts.push(text::string_of(&chars, start, chars.len()));
        proof {
            assert(sentence_len(rest, 1) == n);
            assert(rest.take(n) == content@.subrange(start as int, content@.len() as int));
            assert(sentences(rest.skip(n)) == Seq::<Seq<char>>::empty());
            assert(text::texts(parts@) == text::texts(before).push(rest.take(n)));
            assert(text::texts(before) + (seq![rest.take(n)] + sentences(rest.skip(n)))
                == text::texts(parts@));
        }
    } else {
        assert(sentences(content@.skip(start as int)) == Seq::<Seq<char>>::empty());
    }
    parts
}

/// Sentences lose nothing of the text, none is empty, and none exceeds the limit.
pub proof fn lemma_sentences(s: Seq<char>)
    ensures
        text::concatenated(sentences(s)) == s,
        forall|i: int|
            0 <= i < sentences(s).len() ==> 1 <= (#[trigger] sentences(s)[i]).len() <= HARD_LIMIT,
    decreases s.len(),
{
    if s.len() > 0 {
        let n = sentence_len(s, 1);
        lemma_sentence_len(s, 1);
        let rest = s.skip(n);
        lemma_sentences(rest);
        let all = sentences(s);
        assert(all.drop_first() == sentences(rest));
        assert(s.take(n) + rest == s);
        assert forall|i: int| 0 <= i < all.len() implies 1 <= (#[trigger] all[i]).len()
            <= HARD_LIMIT by {
            if i > 0 {
                assert(all[i] == sentences(rest)[i - 1]);
            }
        }
    }
}

/// Where the sentence at place `i` of `parts` begins in the text.
pub open spec fn offset(parts: Seq<Seq<char>>, i: int) -> int {
    text::concatenated(parts.take(i)).len() as int
}

proof fn lemma_sentence_stops(s: Seq<char>, n: int)
    requires
        1 <= n <= s.len(),
        n <= HARD_LIMIT,
    ensures
        forall|k: int| n - 1 <= k < sentence_len(s, n) - 1 ==> !#[trigger] boundary_at(s, k),
        sentence_len(s, n) == s.len() || sentence_len(s, n) == HARD_LIMIT || boundary_at(
            s,
            sentence_len(s, n) - 1,
        ),
    decreases s.len() - n,
{
    if !(n >= s.len() || n >= HARD_LIMIT || boundary_at(s, n - 1)) {
        lemma_sentence_stops(s, n + 1);
    }
}

/// A sentence goes on until something ends it: no sentence end stands inside of it, and it
/// ends at one, unless it has reached the limit or is the last.
pub proof fn lemma_sentence_ends(s: Seq<char>, i: int)
    requires
        0 <= i < sentences(s).len(),
    ensures
        ({
            let from = offset(sentences(s), i);
            let len = sentences(s)[i].len() as int;
            &&& 0 <= from && from + len <= s.len()
            &&& sentences(s)[i] == s.subrange(from, from + len)
            &&& forall|k: int| from <= k < from + len - 1 ==> !#[trigger] boundary_at(s, k)
            &&& i == sentences(s).len() - 1 || len == HARD_LIMIT || boundary_at(s, from + len - 1)
        }),
    decreases s.len(),
{
    let all = sentences(s);
    let n = sentence_len(s, 1);
    lemma_sentence_len(s, 1);
    lemma_sentence_stops(s, 1);
    let rest = s.skip(n);
    assert(all[0] == s.take(n));
    if i == 0 {
        assert(all.take(0) =~= Seq::<Seq<char>>::empty());
        assert(s.take(n) =~= s.subrange(0, n));
        if n == s.len() {
            assert(sentences(rest).len() == 0);
        }
    } else {
        lemma_sentence_ends(rest, i - 1);
        let others = sentences(rest);
        assert(all[i] == others[i - 1]);
        assert(all.take(i).drop_first() =~= others.take(i - 1));
        assert(all.take(i)[0] == all[0]);
        let from = offset(others, i - 1);
        let len = others[i - 1].len() as int;
        assert(offset(all, i) == n + from);
        assert(rest.subrange(from, from + len) =~= s.subrange(n + from, n + from + len));
        assert forall|k: int| 0 <= k < rest.len() implies boundary_at(rest, k) == #[trigger]
            boundary_at(s, n + k) by {
            assert(rest[k] == s[n + k]);
        }
        assert forall|k: int| n + from <= k < n + from + len - 1 implies !#[trigger] boundary_at(
            s,
            k,
        ) by {
            assert(boundary_at(rest, k - n) == boundary_at(s, n + (k - n)));
        }
        lemma_sentences(rest);
        assert(others[i - 1].len() >= 1);
        assert(boundary_at(rest, from + len - 1) == boundary_at(s, n + (from + len - 1)));
    }
}

/// Packs sentences into windows: a sentence joins the window that is being filled, unless
/// that window holds something already and the two together exceed the budget.
pub open spec fn packed(current: Seq<char>, rest: Seq<Seq<char>>) -> Seq<Seq<char>>
    decreases rest.len(),
{
    if rest.len() == 0 {
        if current.len() == 0 {
            Seq::empty()
        } else {
            seq![current]
        }
    } else if current.len() > 0 && current.len() + rest[0].len() > WINDOW_CHAR_BUDGET {
        seq![current] + packed(rest[0], rest.drop_first())
    } else {
        packed(current + rest[0], rest.drop_first())
    }
}

/// The windows of `s`. An empty text has one window, itself.
pub open spec fn windows(s: Seq<char>) -> Seq<Seq<char>> {
    let parts = packed(Seq::empty(), sentences(s));
    if parts.len() == 0 {
        seq![s]
    } else {
        parts
    }
}

proof fn lemma_packed(current: Seq<char>, rest: Seq<Seq<char>>)
    requires
        current.len() <= WINDOW_CHAR_BUDGET,
        forall|i: int| 0 <= i < rest.len() ==> 1 <= (#[trigger] rest[i]).len() <= HARD_LIMIT,
    ensures
        text::concatenated(packed(current, rest)) == current + text::concatenated(rest),
        forall|i: int|
            0 <= i < packed(current, rest).len() ==> 1 <= (#[trigger] packed(current, rest)[i]).len()
                <= WINDOW_CHAR_BUDGET,
    decreases rest.len(),
{
    let all = packed(current, rest);
    if rest.len() == 0 {
        if current.len() > 0 {
            assert(all.drop_first() == Seq::<Seq<char>>::empty());
            assert(text::concatenated(all.drop_first()) == Seq::<char>::empty());
        }
        assert(text::concatenated(all) == current + text::concatenated(rest));
    } else {
        let tail = rest.drop_first();
        assert forall|i: int| 0 <= i < tail.len() implies 1 <= (#[trigger] tail[i]).len()
            <= HARD_LIMIT by {
            assert(tail[i] == rest[i + 1]);
        }
        if current.len() > 0 && current.len() + rest[0].len() > WINDOW_CHAR_BUDGET {
            lemma_packed(rest[0], tail);
            let others = packed(rest[0], tail);
            assert(all.drop_first() == others);
            assert forall|i: int| 0 <= i < all.len() implies 1 <= (#[trigger] all[i]).len()
                <= WINDOW_CHAR_BUDGET by {
                if i > 0 {
                    assert(all[i] == others[i - 1]);
                }
            }
        } else {
            lemma_packed(current + rest[0], tail);
            assert((current + rest[0]) + text::concatenated(tail) == current + (rest[0]
                + text::concatenated(tail)));
        }
    }
}

/// Windows lose nothing of the text and none exceeds the budget; there is always one, and
/// an empty one only where the text is empty.
pub proof fn lemma_windows(s: Seq<char>)
    ensures
        text::concatenated(windows(s)) == s,
        windows(s).len() >= 1,
        forall|i: int|
            0 <= i < windows(s).len() ==> (#[trigger] windows(s)[i]).len() <= WINDOW_CHAR_BUDGET,
        s.len() > 0 ==> forall|i: int|
            0 <= i < windows(s).len() ==> (#[trigger] windows(s)[i]).len() >= 1,
{
    lemma_sentences(s);
    lemma_packed(Seq::empty(), sentences(s));
    let parts = packed(Seq::empty(), sentences(s));
    assert(Seq::<char>::empty() + s == s);
    if parts.len() == 0 {
        assert(s.len() == 0);
        assert(windows(s).drop_first() == Seq::<Seq<char>>::empty());
        assert(text::concatenated(windows(s).drop_first()) == Seq::<char>::empty());
    }
}

/// What each of `groups` holds.
pub open spec fn group_texts(groups: Seq<Seq<Seq<char>>>) -> Seq<Seq<char>> {
    Seq::new(groups.len(), |i: int| text::concatenated(groups[i]))
}

/// Whether `groups` are `parts` in their order, each in one group, and no group holds more
/// than the budget.
pub open spec fn packs(groups: Seq<Seq<Seq<char>>>, parts: Seq<Seq<char>>) -> bool {
    &&& text::concatenated(groups) == parts
    &&& forall|i: int|
        0 <= i < groups.len() ==> text::concatenated(#[trigger] groups[i]).len()
            <= WINDOW_CHAR_BUDGET
}

/// Whether no group but the last has room for the part that follows it.
pub open spec fn filled(groups: Seq<Seq<Seq<char>>>) -> bool {
    forall|i: int|
        #![trigger groups[i]]
        0 <= i < groups.len() - 1 ==> groups[i + 1].len() > 0 && text::concatenated(groups[i]).len()
            + groups[i + 1][0].len() > WINDOW_CHAR_BUDGET
}

spec fn none_empty(parts: Seq<Seq<char>>) -> bool {
    forall|i: int| 0 <= i < parts.len() ==> (#[trigger] parts[i]).len() >= 1
}

proof fn lemma_push_part(current: Seq<Seq<char>>, part: Seq<char>)
    ensures
        text::concatenated(current.push(part)) == text::concatenated(current) + part,
{
    let one = seq![part];
    text::lemma_concatenated_add(current, one);
    assert(current + one == current.push(part));
    assert(one.drop_first() == Seq::<Seq<char>>::empty());
    assert(text::concatenated(one.drop_first()) == Seq::<char>::empty());
    assert(text::concatenated(one) == part);
}

proof fn lemma_packed_groups(current: Seq<Seq<char>>, rest: Seq<Seq<char>>) -> (groups: Seq<
    Seq<Seq<char>>,
>)
    requires
        none_empty(current),
        none_empty(rest),
    ensures
        text::concatenated(groups) == current + rest,
        group_texts(groups) == packed(text::concatenated(current), rest),
        filled(groups),
        groups.len() > 0 ==> groups[0].len() > 0 && (current.len() > 0 ==> groups[0][0]
            == current[0]) && (current.len() == 0 && rest.len() > 0 ==> groups[0][0] == rest[0]),
    decreases rest.len(),
{
    let sum = text::concatenated(current);
    if current.len() > 0 {
        assert(current[0].len() >= 1);
    }
    if rest.len() == 0 {
        assert(current + rest == current);
        if current.len() == 0 {
            let groups = Seq::<Seq<Seq<char>>>::empty();
            assert(group_texts(groups) == packed(sum, rest));
            groups
        } else {
            let groups = seq![current];
            assert(groups.drop_first() == Seq::<Seq<Seq<char>>>::empty());
            assert(text::concatenated(groups.drop_first()) == Seq::<Seq<char>>::empty());
            assert(text::concatenated(groups) == current);
            assert(group_texts(groups) == packed(sum, rest));
            groups
        }
    } else {
        let tail = rest.drop_first();
        assert(rest[0].len() >= 1);
        assert forall|i: int| 0 <= i < tail.len() implies (#[trigger] tail[i]).len() >= 1 by {
            assert(tail[i] == rest[i + 1]);
        }
        if sum.len() > 0 && sum.len() + rest[0].len() > WINDOW_CHAR_BUDGET {
            let next = seq![rest[0]];
            lemma_push_part(Seq::empty(), rest[0]);
            assert(Seq::<Seq<char>>::empty().push(rest[0]) == next);
            assert(text::concatenated(next) == rest[0]);
            let others = lemma_packed_groups(next, tail);
            let groups = seq![current] + others;
            assert(groups.drop_first() == others);
            assert(current + (next + tail) == current + rest);
            assert(group_texts(groups) == seq![sum] + group_texts(others));
            assert forall|i: int|
                #![trigger groups[i]]
                0 <= i < groups.len() - 1 implies groups[i + 1].len() > 0 && text::concatenated(
                groups[i],
            ).len() + groups[i + 1][0].len() > WINDOW_CHAR_BUDGET by {
                assert(groups[i + 1] == others[i]);
                if i > 0 {
                    assert(groups[i] == others[i - 1]);
                    assert(others[i - 1 + 1] == others[i]);
                }
            }
            groups
        } else {
            lemma_push_part(current, rest[0]);
            let groups = lemma_packed_groups(current.push(rest[0]), tail);
            assert(current.push(rest[0]) + tail == current + rest);
            groups
        }
    }
}

/// No sentence is divided between two windows: windows are whole sentences, in order, put
/// together. Each is filled before the next is begun: the first sentence of a window had no
/// room in the window before it.
pub proof fn lemma_windows_keep_sentences(s: Seq<char>)
    requires
        s.len() > 0,
    ensures
        exists|groups: Seq<Seq<Seq<char>>>| #[trigger]
            packs(groups, sentences(s)) && group_texts(groups) == windows(s) && filled(groups),
{
    lemma_sentences(s);
    lemma_windows(s);
    let groups = lemma_packed_groups(Seq::empty(), sentences(s));
    assert(Seq::<Seq<char>>::empty() + sentences(s) == sentences(s));
    assert(sentences(s).len() > 0);
    if group_texts(groups).len() == 0 {
        assert(text::concatenated(groups).len() == 0);
    }
    assert(group_texts(groups) == windows(s));
    assert forall|i: int| 0 <= i < groups.len() implies text::concatenated(
        #[trigger] groups[i],
    ).len() <= WINDOW_CHAR_BUDGET by {
        assert(group_texts(groups)[i] == windows(s)[i]);
    }
    assert(packs(groups, sentences(s)));
}

proof fn lemma_packed_fuller(x: Seq<char>, y: Seq<char>, rest: Seq<Seq<char>>)
    requires
        1 <= x.len() <= y.len(),
        none_empty(rest),
    ensures
        packed(x, rest).len() <= packed(y, rest).len(),
    decreases rest.len(),
{
    if rest.len() > 0 {
        let tail = rest.drop_first();
        assert forall|i: int| 0 <= i < tail.len() implies (#[trigger] tail[i]).len() >= 1 by {
            assert(tail[i] == rest[i + 1]);
        }
        if x.len() + rest[0].len() <= WINDOW_CHAR_BUDGET {
            if y.len() + rest[0].len() <= WINDOW_CHAR_BUDGET {
                lemma_packed_fuller(x + rest[0], y + rest[0], tail);
            } else {
                lemma_packed_one_more(x + rest[0], rest[0], tail);
            }
        }
    }
}

proof fn lemma_packed_one_more(a: Seq<char>, b: Seq<char>, rest: Seq<Seq<char>>)
    requires
        none_empty(rest),
    ensures
        packed(a, rest).len() <= 1 + packed(b, rest).len(),
    decreases rest.len(),
{
    if rest.len() > 0 {
        let tail = rest.drop_first();
        assert(rest[0].len() >= 1);
        assert forall|i: int| 0 <= i < tail.len() implies (#[trigger] tail[i]).len() >= 1 by {
            assert(tail[i] == rest[i + 1]);
        }
        lemma_packed_fuller(rest[0], b + rest[0], tail);
        lemma_packed_one_more(a + rest[0], rest[0], tail);
        lemma_packed_one_more(a + rest[0], b + rest[0], tail);
    }
}

proof fn lemma_packed_in_one(current: Seq<char>, group: Seq<Seq<char>>, rest: Seq<Seq<char>>)
    requires
        current.len() + text::concatenated(group).len() <= WINDOW_CHAR_BUDGET,
    ensures
        packed(current, group + rest) == packed(current + text::concatenated(group), rest),
    decreases group.len(),
{
    if group.len() == 0 {
        assert(group + rest == rest);
        assert(current + text::concatenated(group) == current);
    } else {
        lemma_packed_in_one(current + group[0], group.drop_first(), rest);
        assert((group + rest).drop_first() == group.drop_first() + rest);
        assert(current + group[0] + text::concatenated(group.drop_first()) == current + (group[0]
            + text::concatenated(group.drop_first())));
    }
}

proof fn lemma_packed_is_fewest(groups: Seq<Seq<Seq<char>>>, parts: Seq<Seq<char>>)
    requires
        packs(groups, parts),
        none_empty(parts),
    ensures
        packed(Seq::empty(), parts).len() <= groups.len(),
    decreases groups.len(),
{
    if groups.len() > 0 {
        let others = groups.drop_first();
        let rest = text::concatenated(others);
        let first = groups[0];
        assert(parts == first + rest);
        assert forall|i: int| 0 <= i < rest.len() implies (#[trigger] rest[i]).len() >= 1 by {
            assert(rest[i] == parts[first.len() + i]);
        }
        assert forall|i: int| 0 <= i < others.len() implies text::concatenated(
            #[trigger] others[i],
        ).len() <= WINDOW_CHAR_BUDGET by {
            assert(others[i] == groups[i + 1]);
        }
        assert(text::concatenated(groups[0]).len() <= WINDOW_CHAR_BUDGET);
        lemma_packed_in_one(Seq::empty(), first, rest);
        lemma_packed_one_more(
            Seq::<char>::empty() + text::concatenated(first),
            Seq::empty(),
            rest,
        );
        lemma_packed_is_fewest(others, rest);
    }
}

/// There are as few windows as possible: the sentences of a text cannot be put together,
/// in order and within the budget, to fewer.
pub proof fn lemma_windows_are_fewest(s: Seq<char>, groups: Seq<Seq<Seq<char>>>)
    requires
        s.len() > 0,
        packs(groups, sentences(s)),
    ensures
        windows(s).len() <= groups.len(),
{
    lemma_sentences(s);
    lemma_packed_is_fewest(groups, sentences(s));
    if groups.len() == 0 {
        assert(sentences(s).len() == 0);
    }
}

/// Cuts `content` into windows of whole sentences.
pub fn split_windows(content: &str) -> (parts: Vec<String>)
    ensures
        text::texts(parts@) == windows(content@),
{
    let pieces = split_sentences(content);
    let ghost all = sentences(content@);
    let mut parts: Vec<String> = Vec::new();
    let mut current = String::new();
    let mut i: usize = 0;
    proof {
        lemma_sentences(content@);
        assert(all.skip(0) == all);
        assert(text::texts(parts@) + packed(Seq::empty(), all) == packed(Seq::empty(), all));
    }
    while i < pieces.len()
        invariant
            text::texts(pieces@) == all,
            i <= pieces@.len(),
            current@.len() <= WINDOW_CHAR_BUDGET,
            forall|j: int| 0 <= j < all.len() ==> 1 <= (#[trigger] all[j]).len() <= HARD_LIMIT,
            text::texts(parts@) + packed(current@, all.skip(i as int)) == packed(
                Seq::empty(),
                all,
            ),
        decreases pieces@.len() - i,
    {
        let ghost rest = all.skip(i as int);
        let ghost before = parts@;
        let ghost filling = current@;
        assert(rest[0] == pieces@[i as int]@);
        assert(rest[0] == all[i as int]);
        assert(rest.drop_first() == all.skip(i + 1));
        let sentence = pieces[i].as_str();
        if current.as_str().unicode_len() > 0 && current.as_str().unicode_len()
            + sentence.unicode_len() > WINDOW_CHAR_BUDGET {
            parts.push(current);
            current = String::new();
            proof {
                assert(text::texts(parts@) == text::texts(before).push(filling));
                assert(text::texts(before) + (seq![filling] + packed(rest[0], rest.drop_first()))
                    == text::texts(parts@) + packed(rest[0], rest.drop_first()));
                assert(Seq::<char>::empty() + rest[0] == rest[0]);
            }
        }
        current.append(sentence);
        i = i + 1;
    }
    assert(all.skip(i as int).len() == 0);
    if current.as_str().unicode_len() > 0 {
        let ghost before = parts@;
        let ghost filling = current@;
        parts.push(current);
        assert(text::texts(parts@) == text::texts(before).push(filling));
    }
    if parts.len() == 0 {
        assert(text::texts(parts@) == Seq::<Seq<char>>::empty());
        parts.push(content.to_owned());
        assert(text::texts(parts@) == seq![content@]);
    }
    parts
}

/// The first position of `s` from `i` on at which a sentence ends; the length of `s` where
/// there is none.
pub open spec fn next_boundary(s: Seq<char>, i: int) -> int
    decreases s.len() - i,
{
    if i >= s.len() {
        s.len() as int
    } else if boundary_at(s, i) {
        i
    } else {
        next_boundary(s, i + 1)
    }
}

/// Where `s` is cut in two: behind the first sentence end in its second half, or in the
/// middle where that half holds none.
pub open spec fn middle_cut(s: Seq<char>) -> int {
    let mid = s.len() as int / 2;
    let end = next_boundary(s, mid);
    if end < s.len() {
        end + 1
    } else {
        mid
    }
}

/// The two halves of `s`, trimmed; `None` where one of them would be empty.
pub open spec fn halves(s: Seq<char>) -> Option<(Seq<char>, Seq<char>)> {
    let cut = middle_cut(s);
    if s.len() < 2 || cut >= s.len() {
        None
    } else {
        let left = text::trimmed(s.take(cut));
        let right = text::trimmed(s.skip(cut));
        if left.len() == 0 || right.len() == 0 {
            None
        } else {
            Some((left, right))
        }
    }
}

proof fn lemma_next_boundary(s: Seq<char>, i: int)
    requires
        0 <= i <= s.len(),
    ensures
        i <= next_boundary(s, i) <= s.len(),
    decreases s.len() - i,
{
    if i < s.len() && !boundary_at(s, i) {
        lemma_next_boundary(s, i + 1);
    }
}

/// Halves are trimmed, not empty, and together no longer than the whole; so each is
/// strictly shorter. Nothing of the whole is lost but white space.
pub proof fn lemma_halves(s: Seq<char>)
    ensures
        halves(s) matches Some((left, right)) ==> {
            &&& 1 <= left.len() < s.len()
            &&& 1 <= right.len() < s.len()
            &&& left.len() + right.len() <= s.len()
            &&& text::trimmed(left) == left
            &&& text::trimmed(right) == right
            &&& text::dense(left) + text::dense(right) == text::dense(s)
        },
{
    if halves(s) is Some {
        lemma_next_boundary(s, s.len() as int / 2);
        let cut = middle_cut(s);
        text::lemma_dense_trimmed(s.take(cut));
        text::lemma_dense_trimmed(s.skip(cut));
        text::lemma_dense_add(s.take(cut), s.skip(cut));
        assert(s.take(cut) + s.skip(cut) == s);
        text::lemma_trimmed(s.take(cut));
        text::lemma_trimmed(s.skip(cut));
    }
}

/// Whether `cut` is where `s` is cut in two: behind the first sentence end from the middle
/// on, or in the middle where there is none.
pub open spec fn cut_at(s: Seq<char>, cut: int) -> bool {
    let mid = s.len() as int / 2;
    ||| mid < cut <= s.len() && boundary_at(s, cut - 1) && forall|k: int|
        mid <= k < cut - 1 ==> !#[trigger] boundary_at(s, k)
    ||| cut == mid && forall|k: int| mid <= k < s.len() ==> !#[trigger] boundary_at(s, k)
}

proof fn lemma_first_boundary(s: Seq<char>, i: int, end: int)
    requires
        0 <= i <= end <= s.len(),
        forall|k: int| i <= k < end ==> !#[trigger] boundary_at(s, k),
        end < s.len() ==> boundary_at(s, end),
    ensures
        next_boundary(s, i) == end,
    decreases end - i,
{
    if i < end {
        assert(!boundary_at(s, i));
        lemma_first_boundary(s, i + 1, end);
    }
}

/// The halves of a text are what stands before and behind the cut, each without the white
/// space around it; there are none where the text is a single character, or where nothing,
/// or nothing but white space, stands on one side.
pub proof fn lemma_halves_are_sides(s: Seq<char>, cut: int)
    requires
        cut_at(s, cut),
    ensures
        halves(s) matches Some((left, right)) ==> text::stripped(left, s.take(cut))
            && text::stripped(right, s.skip(cut)) && left.len() > 0 && right.len() > 0,
        halves(s) is None ==> s.len() < 2 || (forall|i: int|
            0 <= i < cut ==> text::white_space(#[trigger] s[i])) || (forall|i: int|
            cut <= i < s.len() ==> text::white_space(#[trigger] s[i])),
{
    let mid = s.len() as int / 2;
    if cut == mid && forall|k: int| mid <= k < s.len() ==> !#[trigger] boundary_at(s, k) {
        lemma_first_boundary(s, mid, s.len() as int);
    } else {
        lemma_first_boundary(s, mid, cut - 1);
    }
    assert(middle_cut(s) == cut);
    text::lemma_trimmed_is_stripped(s.take(cut));
    text::lemma_trimmed_is_stripped(s.skip(cut));
    text::lemma_trimmed(s.take(cut));
    text::lemma_trimmed(s.skip(cut));
    if text::trimmed(s.take(cut)).len() == 0 {
        assert forall|i: int| 0 <= i < cut implies text::white_space(#[trigger] s[i]) by {
            assert(s.take(cut)[i] == s[i]);
        }
    }
    if text::trimmed(s.skip(cut)).len() == 0 {
        assert forall|i: int| cut <= i < s.len() implies text::white_space(#[trigger] s[i]) by {
            assert(s.skip(cut)[i - cut] == s[i]);
        }
    }
}

/// Cuts `content` in two, behind a sentence end where its second half has one.
pub fn split_half(content: &str) -> (r: Option<(String, String)>)
    ensures
        match r {
            Some((left, right)) => halves(content@) == Some((left@, right@)),
            None => halves(content@) is None,
        },
{
    let chars = text::chars_of(content);
    if chars.len() < 2 {
        return None;
    }
    let mid: usize = chars.len() / 2;
    let mut split: usize = mid;
    let mut i: usize = mid;
    while i < chars.len()
        invariant_except_break
            split == mid,
            next_boundary(content@, mid as int) == next_boundary(content@, i as int),
        invariant
            chars@ == content@,
            mid <= i <= chars@.len(),
            mid == chars@.len() / 2,
        ensures
            split == middle_cut(content@),
            mid <= split <= chars@.len(),
        decreases chars@.len() - i,
    {
        let next: Option<&char> = if i + 1 < chars.len() {
            Some(&chars[i + 1])
        } else {
            None
        };
        if is_boundary(chars[i], next) {
            split = i + 1;
            break;
        }
        i = i + 1;
    }
    if split >= chars.len() {
        return None;
    }
    let (left_lo, left_hi) = text::trim_range(&chars, 0, split);
    let (right_lo, right_hi) = text::trim_range(&chars, split, chars.len());
    assert(chars@.subrange(0, split as int) == content@.take(split as int));
    assert(chars@.subrange(split as int, chars@.len() as int) == content@.skip(split as int));
    if left_lo == left_hi || right_lo == right_hi {
        None
    } else {
        Some((text::string_of(&chars, left_lo, left_hi), text::string_of(&chars, right_lo, right_hi)))
    }
}

/// The last `max_chars` characters of `s`, or all of it where it is shorter. Of a text
/// that is not empty at least one character is kept.
pub open spec fn tail(s: Seq<char>, max_chars: nat) -> Seq<char> {
    let kept = if max_chars == 0 {
        1nat
    } else {
        max_chars
    };
    if s.len() >= kept {
        s.skip(s.len() - kept)
    } else {
        s
    }
}

/// The end of `content` that the next window is shown.
pub fn tail_of(content: &str, max_chars: usize) -> (r: String)
    ensures
        r@ == tail(content@, max_chars as nat),
{
    let chars = text::chars_of(content);
    let kept: usize = if max_chars == 0 {
        1
    } else {
        max_chars
    };
    let start: usize = if chars.len() >= kept {
        chars.len() - kept
    } else {
        0
    };
    assert(content@.skip(0) == content@);
    text::string_of(&chars, start, chars.len())
}

/// A tail is a suffix of its text, as long as asked for or the whole text, and its own tail.
pub proof fn lemma_tail(s: Seq<char>, max_chars: nat)
    ensures
        tail(s, max_chars) == s.skip(s.len() - tail(s, max_chars).len()),
        max_chars >= 1 ==> tail(s, max_chars).len() == if s.len() < max_chars {
            s.len()
        } else {
            max_chars
        },
        max_chars == 0 ==> tail(s, max_chars).len() == if s.len() < 1 {
            0nat
        } else {
            1nat
        },
        tail(tail(s, max_chars), max_chars) == tail(s, max_chars),
{
    let t = tail(s, max_chars);
    assert(s.skip(0) == s);
    assert(t.skip(0) == t);
}

/// What the model wrote behind its reasoning: all that follows the last `</think>`, or the
/// whole text where there is none.
pub open spec fn without_reasoning(s: Seq<char>) -> Seq<char> {
    match text::after_last(s, "</think>"@) {
        Some(rest) => rest,
        None => s,
    }
}

/// Nothing that is left carries the end mark of a reasoning. All that stands behind the last
/// such mark is left, and the whole text where there is none.
pub proof fn lemma_without_reasoning(s: Seq<char>, i: int)
    ensures
        !text::occurs_at(without_reasoning(s), "</think>"@, i),
        (forall|j: int| !text::occurs_at(s, "</think>"@, j)) ==> without_reasoning(s) == s,
        text::occurs_at(s, "</think>"@, i) ==> without_reasoning(s).len() <= s.len() - i - 8
            && s.skip(s.len() - without_reasoning(s).len() - 8) == "</think>"@ + without_reasoning(
            s,
        ),
{
    assert("</think>"@.len() == 8) by {
        reveal_strlit("</think>");
    }
    text::lemma_after_last_splits(s, "</think>"@);
    text::lemma_none_after_last(s, "</think>"@, i);
}

/// Drops the model's reasoning.
pub fn strip_reasoning(content: &str) -> (r: &str)
    ensures
        r@ == without_reasoning(content@),
{
    let chars = text::chars_of(content);
    let mark = text::chars_of("</think>");
    let total: usize = chars.len();
    match text::find_last(&chars, &mark) {
        Some(at) => {
            proof {
                text::lemma_after_last(content@, mark@, at as int);
            }
            let rest = content.substring_char(at + mark.len(), total);
            assert(rest@ == content@.skip(at + mark@.len()));
            rest
        },
        None => content,
    }
}

/// A window holds at most 1500 characters, and a sentence at most 800; so a window has room
/// for any sentence.
pub proof fn lemma_sizes()
    ensures
        WINDOW_CHAR_BUDGET == 1500,
        HARD_LIMIT == 800,
        HARD_LIMIT <= WINDOW_CHAR_BUDGET,
{
}

} // verus!
