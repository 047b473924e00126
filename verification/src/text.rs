//! Character-level text operations shared by the recogniser and the refiner.
//!
//! A string is modelled by the sequence of its characters.
use vstd::prelude::*;

verus! {

/// The characters with the Unicode `White_Space` property.
pub open spec fn white_space(c: char) -> bool {
    let n = c as int;
    ||| 0x9 <= n <= 0xd
    ||| n == 0x20
    ||| n == 0x85
    ||| n == 0xa0
    ||| n == 0x1680
    ||| 0x2000 <= n <= 0x200a
    ||| 0x2028 <= n <= 0x2029
    ||| n == 0x202f
    ||| n == 0x205f
    ||| n == 0x3000
}

/// `s` without its leading white space.
pub open spec fn trim_start(s: Seq<char>) -> Seq<char>
    decreases s.len(),
{
    if s.len() > 0 && white_space(s[0]) {
        trim_start(s.drop_first())
    } else {
        s
    }
}

/// `s` without its trailing white space.
pub open spec fn trim_end(s: Seq<char>) -> Seq<char>
    decreases s.len(),
{
    if s.len() > 0 && white_space(s.last()) {
        trim_end(s.drop_last())
    } else {
        s
    }
}

/// `s` without its leading and trailing white space.
pub open spec fn trimmed(s: Seq<char>) -> Seq<char> {
    trim_end(trim_start(s))
}

/// Whether `mark` stands in `s` at position `i`.
pub open spec fn occurs_at(s: Seq<char>, mark: Seq<char>, i: int) -> bool {
    &&& 0 <= i <= s.len() - mark.len()
    &&& s.subrange(i, i + mark.len()) == mark
}

/// What follows the last occurrence of `mark` in `s`; `None` where it does not occur.
pub open spec fn after_last(s: Seq<char>, mark: Seq<char>) -> Option<Seq<char>> {
    if exists|i: int| occurs_at(s, mark, i) {
        let last = choose|i: int|
            occurs_at(s, mark, i) && forall|j: int| occurs_at(s, mark, j) ==> j <= i;
        Some(s.skip(last + mark.len()))
    } else {
        None
    }
}

/// The texts of a list of strings.
pub open spec fn texts(strings: Seq<String>) -> Seq<Seq<char>> {
    Seq::new(strings.len(), |i: int| strings[i]@)
}

/// There is one text for each string, and it holds all its characters.
pub proof fn lemma_texts(strings: Seq<String>, i: int)
    requires
        0 <= i < strings.len(),
    ensures
        texts(strings).len() == strings.len(),
        texts(strings)[i] == strings[i]@,
{
}

/// What `parts` hold, one after the other.
pub open spec fn concatenated<A>(parts: Seq<Seq<A>>) -> Seq<A>
    decreases parts.len(),
{
    if parts.len() == 0 {
        Seq::empty()
    } else {
        parts[0] + concatenated(parts.drop_first())
    }
}

/// What `s` says, whatever the white space in it: its other characters, in order.
pub open spec fn dense(s: Seq<char>) -> Seq<char> {
    s.filter(|c: char| !white_space(c))
}

/// The characters of `text`, one by one.
pub fn chars_of(text: &str) -> (chars: Vec<char>)
    ensures
        chars@ == text@,
{
    let mut chars: Vec<char> = Vec::new();
    for c in it: text.chars()
        invariant
            it.seq() == text@,
            chars@ == text@.take(it.index() as int),
    {
        chars.push(c);
    }
    chars
}

/// `String::push` appends one character.
pub assume_specification[ String::push ](s: &mut String, c: char)
    ensures
        final(s)@ == old(s)@.push(c),
;

/// The string made of `chars[from..to]`.
pub fn string_of(chars: &Vec<char>, from: usize, to: usize) -> (text: String)
    requires
        from <= to <= chars@.len(),
    ensures
        text@ == chars@.subrange(from as int, to as int),
{
    let mut text = String::new();
    let mut i: usize = from;
    while i < to
        invariant
            from <= i <= to <= chars@.len(),
            text@ == chars@.subrange(from as int, i as int),
        decreases to - i,
    {
        text.push(chars[i]);
        i = i + 1;
        assert(chars@.subrange(from as int, i as int) == chars@.subrange(
            from as int,
            i - 1,
        ).push(chars@[i - 1]));
    }
    text
}

/// Whether `c` is white space.
pub fn is_whitespace(c: char) -> (r: bool)
    ensures
        r == white_space(c),
{
    let n: u32 = c as u32;
    (0x9 <= n && n <= 0xd) || n == 0x20 || n == 0x85 || n == 0xa0 || n == 0x1680 || (0x2000 <= n
        && n <= 0x200a) || n == 0x2028 || n == 0x2029 || n == 0x202f || n == 0x205f || n == 0x3000
}

proof fn lemma_trim_start_at(s: Seq<char>, lo: int)
    requires
        0 <= lo <= s.len(),
        forall|i: int| 0 <= i < lo ==> white_space(#[trigger] s[i]),
        lo < s.len() ==> !white_space(s[lo]),
    ensures
        trim_start(s) == s.skip(lo),
    decreases lo,
{
    if lo == 0 {
        assert(s.skip(0) == s);
    } else {
        let rest = s.drop_first();
        assert forall|i: int| 0 <= i < lo - 1 implies white_space(#[trigger] rest[i]) by {
            assert(rest[i] == s[i + 1]);
        }
        lemma_trim_start_at(rest, lo - 1);
        assert(white_space(s[0]));
        assert(rest.skip(lo - 1) == s.skip(lo));
    }
}

proof fn lemma_trim_end_at(s: Seq<char>, hi: int)
    requires
        0 <= hi <= s.len(),
        forall|i: int| hi <= i < s.len() ==> white_space(#[trigger] s[i]),
        hi > 0 ==> !white_space(s[hi - 1]),
    ensures
        trim_end(s) == s.take(hi),
    decreases s.len() - hi,
{
    if hi == s.len() {
        assert(s.take(hi) == s);
    } else {
        assert(white_space(s[s.len() - 1]));
        lemma_trim_end_at(s.drop_last(), hi);
        assert(s.drop_last().take(hi) == s.take(hi));
    }
}

/// The range of `chars` that is left when the white space around it is taken away.
pub fn trim_range(chars: &Vec<char>, from: usize, to: usize) -> (r: (usize, usize))
    requires
        from <= to <= chars@.len(),
    ensures
        from <= r.0 <= r.1 <= to,
        chars@.subrange(r.0 as int, r.1 as int) == trimmed(
            chars@.subrange(from as int, to as int),
        ),
{
    let ghost whole = chars@.subrange(from as int, to as int);
    let mut lo: usize = from;
    while lo < to && is_whitespace(chars[lo])
        invariant
            from <= lo <= to <= chars@.len(),
            forall|i: int| from <= i < lo ==> white_space(#[trigger] chars@[i]),
        decreases to - lo,
    {
        lo = lo + 1;
    }
    let mut hi: usize = to;
    while hi > lo && is_whitespace(chars[hi - 1])
        invariant
            from <= lo <= hi <= to <= chars@.len(),
            forall|i: int| hi <= i < to ==> white_space(#[trigger] chars@[i]),
        decreases hi - lo,
    {
        hi = hi - 1;
    }
    proof {
        lemma_trim_start_at(whole, lo - from);
        let rest = whole.skip(lo - from);
        assert forall|i: int| hi - lo <= i < rest.len() implies white_space(#[trigger] rest[i]) by {
            assert(rest[i] == chars@[lo + i]);
        }
        lemma_trim_end_at(rest, hi - lo);
        assert(rest.take(hi - lo) == chars@.subrange(lo as int, hi as int));
    }
    (lo, hi)
}

/// `text` without the white space around it.
pub fn trim(text: &str) -> (r: String)
    ensures
        r@ == trimmed(text@),
{
    let chars = chars_of(text);
    let (lo, hi) = trim_range(&chars, 0, chars.len());
    assert(chars@.subrange(0, chars@.len() as int) == text@);
    string_of(&chars, lo, hi)
}

/// Trimming leaves white space at neither end, is the identity on what is already
/// trimmed, never lengthens a text, and empties exactly the all-white-space texts.
pub proof fn lemma_trimmed(s: Seq<char>)
    ensures
        trimmed(s).len() <= s.len(),
        trimmed(s).len() > 0 ==> !white_space(trimmed(s)[0]) && !white_space(trimmed(s).last()),
        trimmed(trimmed(s)) == trimmed(s),
        trimmed(s).len() == 0 <==> forall|i: int| 0 <= i < s.len() ==> white_space(#[trigger] s[i]),
{
    lemma_trim_start_shape(s);
    let rest = trim_start(s);
    lemma_trim_end_shape(rest);
    let t = trimmed(s);
    if t.len() > 0 {
        assert(t[0] == rest[0]);
        assert(s[s.len() - rest.len()] == rest[0]);
    } else if rest.len() > 0 {
        assert(white_space(rest[0]));
    } else {
        assert forall|i: int| 0 <= i < s.len() implies white_space(#[trigger] s[i]) by {}
    }
    assert(trim_start(t) == t);
    assert(trim_end(t) == t);
}

proof fn lemma_trim_start_shape(s: Seq<char>)
    ensures
        trim_start(s).len() <= s.len(),
        trim_start(s) == s.skip(s.len() - trim_start(s).len()),
        forall|i: int| 0 <= i < s.len() - trim_start(s).len() ==> white_space(#[trigger] s[i]),
        trim_start(s).len() > 0 ==> !white_space(trim_start(s)[0]),
    decreases s.len(),
{
    if s.len() > 0 && white_space(s[0]) {
        let rest = s.drop_first();
        lemma_trim_start_shape(rest);
        let t = trim_start(s);
        assert(rest.skip(rest.len() - t.len()) == s.skip(s.len() - t.len()));
        assert forall|i: int| 0 <= i < s.len() - t.len() implies white_space(#[trigger] s[i]) by {
            if i > 0 {
                assert(rest[i - 1] == s[i]);
            }
        }
    } else {
        assert(s.skip(0) == s);
    }
}

proof fn lemma_trim_end_shape(s: Seq<char>)
    ensures
        trim_end(s).len() <= s.len(),
        trim_end(s) == s.take(trim_end(s).len() as int),
        forall|i: int| trim_end(s).len() <= i < s.len() ==> white_space(#[trigger] s[i]),
        trim_end(s).len() > 0 ==> !white_space(trim_end(s).last()),
    decreases s.len(),
{
    if s.len() > 0 && white_space(s.last()) {
        let rest = s.drop_last();
        lemma_trim_end_shape(rest);
        let t = trim_end(s);
        assert(rest.take(t.len() as int) == s.take(t.len() as int));
        assert forall|i: int| t.len() <= i < s.len() implies white_space(#[trigger] s[i]) by {
            if i < s.len() - 1 {
                assert(rest[i] == s[i]);
            }
        }
    } else {
        assert(s.take(s.len() as int) == s);
    }
}

/// Whether `t` is `s` without the white space around it: a stretch of `s` that neither begins
/// nor ends with white space, and outside of which there is nothing else.
pub open spec fn stripped(t: Seq<char>, s: Seq<char>) -> bool {
    exists|lo: int, hi: int| #[trigger] stripped_at(t, s, lo, hi)
}

/// Whether `t` is `s` from `lo` to `hi`, and the rest of `s` is the white space around it.
pub open spec fn stripped_at(t: Seq<char>, s: Seq<char>, lo: int, hi: int) -> bool {
    &&& 0 <= lo <= hi <= s.len()
    &&& t == s.subrange(lo, hi)
    &&& forall|i: int| 0 <= i < lo || hi <= i < s.len() ==> white_space(#[trigger] s[i])
    &&& t.len() > 0 ==> !white_space(t[0]) && !white_space(t.last())
}

/// Trimming takes away the white space around a text and leaves every character between.
pub proof fn lemma_trimmed_is_stripped(s: Seq<char>)
    ensures
        stripped(trimmed(s), s),
{
    lemma_trim_start_shape(s);
    let rest = trim_start(s);
    lemma_trim_end_shape(rest);
    lemma_trimmed(s);
    let t = trimmed(s);
    let lo = s.len() - rest.len();
    let hi = lo + t.len();
    assert(t =~= s.subrange(lo, hi));
    assert forall|i: int| 0 <= i < lo || hi <= i < s.len() implies white_space(
        #[trigger] s[i],
    ) by {
        if i >= hi {
            assert(rest[i - lo] == s[i]);
        }
    }
    assert(stripped_at(t, s, lo, hi));
}

/// There is one way only to strip a text: it is trimming it.
pub proof fn lemma_stripped_is_trimmed(t: Seq<char>, s: Seq<char>)
    requires
        stripped(t, s),
    ensures
        t == trimmed(s),
{
    let (lo, hi) = choose|lo: int, hi: int| #[trigger] stripped_at(t, s, lo, hi);
    lemma_trimmed(s);
    if t.len() == 0 {
        assert forall|i: int| 0 <= i < s.len() implies white_space(#[trigger] s[i]) by {}
    } else {
        assert(t[0] == s[lo]);
        assert(t.last() == s[hi - 1]);
        lemma_trim_start_at(s, lo);
        let rest = s.skip(lo);
        assert forall|i: int| hi - lo <= i < rest.len() implies white_space(#[trigger] rest[i]) by {
            assert(rest[i] == s[lo + i]);
        }
        assert(rest[hi - lo - 1] == s[hi - 1]);
        lemma_trim_end_at(rest, hi - lo);
        assert(rest.take(hi - lo) =~= t);
    }
}

/// What two texts say together is what one says and then the other.
pub proof fn lemma_dense_add(a: Seq<char>, b: Seq<char>)
    ensures
        dense(a + b) == dense(a) + dense(b),
{
    Seq::filter_distributes_over_add(a, b, |c: char| !white_space(c));
}

/// Trimming takes nothing away of what a text says.
pub proof fn lemma_dense_trimmed(s: Seq<char>)
    ensures
        dense(trimmed(s)) == dense(s),
{
    lemma_dense_trim_start(s);
    lemma_dense_trim_end(trim_start(s));
}

proof fn lemma_dense_trim_start(s: Seq<char>)
    ensures
        dense(trim_start(s)) == dense(s),
    decreases s.len(),
{
    if s.len() > 0 && white_space(s[0]) {
        let first = seq![s[0]];
        lemma_dense_trim_start(s.drop_first());
        lemma_dense_add(first, s.drop_first());
        assert(first + s.drop_first() == s);
        assert(dense(first) == Seq::<char>::empty()) by {
            reveal(Seq::filter);
            assert(first.drop_last() == Seq::<char>::empty());
            assert(dense(first.drop_last()) == Seq::<char>::empty());
        }
    }
}

proof fn lemma_dense_trim_end(s: Seq<char>)
    ensures
        dense(trim_end(s)) == dense(s),
    decreases s.len(),
{
    if s.len() > 0 && white_space(s.last()) {
        lemma_dense_trim_end(s.drop_last());
        reveal(Seq::filter);
    }
}

/// Parts that follow others hold what they hold behind what the others hold.
pub proof fn lemma_concatenated_add<A>(a: Seq<Seq<A>>, b: Seq<Seq<A>>)
    ensures
        concatenated(a + b) == concatenated(a) + concatenated(b),
    decreases a.len(),
{
    if a.len() == 0 {
        assert(a + b == b);
        assert(concatenated(a) + concatenated(b) == concatenated(b));
    } else {
        lemma_concatenated_add(a.drop_first(), b);
        assert((a + b).drop_first() == a.drop_first() + b);
        assert(a[0] + (concatenated(a.drop_first()) + concatenated(b)) == a[0] + concatenated(
            a.drop_first(),
        ) + concatenated(b));
    }
}

/// One part alone holds what it holds.
pub proof fn lemma_concatenated_one<A>(part: Seq<A>)
    ensures
        concatenated(seq![part]) == part,
{
    let one = seq![part];
    assert(one.drop_first() =~= Seq::<Seq<A>>::empty());
    assert(concatenated(one.drop_first()) =~= Seq::<A>::empty());
    assert(concatenated(one) =~= part);
}

/// `after_last` is what follows position `i + mark.len()`, where `i` is the last occurrence.
pub proof fn lemma_after_last(s: Seq<char>, mark: Seq<char>, i: int)
    requires
        occurs_at(s, mark, i),
        forall|j: int| occurs_at(s, mark, j) ==> j <= i,
    ensures
        after_last(s, mark) == Some(s.skip(i + mark.len())),
{
}

/// A text in which a mark occurs is what stands before its last occurrence, the mark, and
/// what follows it; where the mark does not occur, nothing follows it.
pub proof fn lemma_after_last_splits(s: Seq<char>, mark: Seq<char>)
    ensures
        after_last(s, mark) is None <==> forall|i: int| !occurs_at(s, mark, i),
        after_last(s, mark) matches Some(rest) ==> s.len() >= mark.len() + rest.len() && s == s.take(
            s.len() - rest.len() - mark.len(),
        ) + mark + rest && s.skip(s.len() - rest.len() - mark.len()) == mark + rest && forall|
            j: int,
        | occurs_at(s, mark, j) ==> j <= s.len() - rest.len() - mark.len(),
{
    if exists|i: int| occurs_at(s, mark, i) {
        lemma_last_exists(s, mark, s.len() as int);
        let last = choose|i: int|
            occurs_at(s, mark, i) && forall|j: int| occurs_at(s, mark, j) ==> j <= i;
        let rest = s.skip(last + mark.len());
        assert(mark + rest =~= s.skip(last));
        assert(s.take(last) + mark + rest =~= s) by {
            assert forall|k: int| last <= k < last + mark.len() implies mark[k - last] == s[k] by {
                assert(s.subrange(last, last + mark.len())[k - last] == s[k]);
            }
        }
    }
}

/// A mark that is not empty does not occur behind its last occurrence.
pub proof fn lemma_none_after_last(s: Seq<char>, mark: Seq<char>, j: int)
    requires
        mark.len() > 0,
    ensures
        after_last(s, mark) is None ==> !occurs_at(s, mark, j),
        after_last(s, mark) matches Some(rest) ==> !occurs_at(rest, mark, j),
{
    if exists|i: int| occurs_at(s, mark, i) {
        lemma_last_exists(s, mark, s.len() as int);
        let last = choose|i: int|
            occurs_at(s, mark, i) && forall|j: int| occurs_at(s, mark, j) ==> j <= i;
        let rest = s.skip(last + mark.len());
        if occurs_at(rest, mark, j) {
            let k = last + mark.len() + j;
            assert(s.subrange(k, k + mark.len()) == rest.subrange(j, j + mark.len()));
            assert(occurs_at(s, mark, k));
        }
    }
}

proof fn lemma_last_exists(s: Seq<char>, mark: Seq<char>, bound: int)
    requires
        exists|i: int| occurs_at(s, mark, i),
        forall|i: int| occurs_at(s, mark, i) ==> i <= bound,
        bound >= 0,
    ensures
        exists|i: int| occurs_at(s, mark, i) && forall|j: int| occurs_at(s, mark, j) ==> j <= i,
    decreases bound,
{
    if !occurs_at(s, mark, bound) {
        if bound == 0 {
            let i = choose|i: int| occurs_at(s, mark, i);
            assert(i == 0);
        } else {
            assert forall|i: int| occurs_at(s, mark, i) implies i <= bound - 1 by {}
            lemma_last_exists(s, mark, bound - 1);
        }
    }
}

/// Where a mark occurs at all, it has a last occurrence.
pub proof fn lemma_last_occurrence(s: Seq<char>, mark: Seq<char>) -> (i: int)
    requires
        exists|i: int| occurs_at(s, mark, i),
    ensures
        occurs_at(s, mark, i),
        forall|j: int| occurs_at(s, mark, j) ==> j <= i,
        after_last(s, mark) == Some(s.skip(i + mark.len())),
{
    lemma_last_exists(s, mark, s.len() as int);
    choose|i: int| occurs_at(s, mark, i) && forall|j: int| occurs_at(s, mark, j) ==> j <= i
}

/// What occurs in a trimmed text occurs in the text.
pub proof fn lemma_trimmed_occurs(s: Seq<char>, mark: Seq<char>, i: int)
    ensures
        occurs_at(trimmed(s), mark, i) ==> exists|j: int| occurs_at(s, mark, j),
{
    lemma_trim_start_shape(s);
    let rest = trim_start(s);
    lemma_trim_end_shape(rest);
    let t = trimmed(s);
    if occurs_at(t, mark, i) {
        let j = s.len() - rest.len() + i;
        assert(s.subrange(j, j + mark.len()) == t.subrange(i, i + mark.len()));
        assert(occurs_at(s, mark, j));
    }
}

/// Whether `mark` stands in `chars` at position `at`.
fn matches_at(chars: &Vec<char>, mark: &Vec<char>, at: usize) -> (r: bool)
    requires
        at + mark@.len() <= chars@.len(),
    ensures
        r == occurs_at(chars@, mark@, at as int),
{
    let ghost part = chars@.subrange(at as int, at + mark@.len());
    let total: usize = chars.len();
    let mut k: usize = 0;
    while k < mark.len()
        invariant
            at + mark@.len() <= total == chars@.len(),
            k <= mark@.len(),
            part == chars@.subrange(at as int, at + mark@.len()),
            forall|j: int| 0 <= j < k ==> part[j] == mark@[j],
        decreases mark@.len() - k,
    {
        if chars[at + k] != mark[k] {
            assert(part[k as int] != mark@[k as int]);
            return false;
        }
        k = k + 1;
    }
    assert(part == mark@);
    true
}

/// The position of the last occurrence of `mark` in `chars`.
pub fn find_last(chars: &Vec<char>, mark: &Vec<char>) -> (r: Option<usize>)
    ensures
        match r {
            Some(i) => occurs_at(chars@, mark@, i as int) && (forall|j: int|
                occurs_at(chars@, mark@, j) ==> j <= i),
            None => forall|j: int| !occurs_at(chars@, mark@, j),
        },
{
    if mark.len() > chars.len() {
        return None;
    }
    let mut at: usize = chars.len() - mark.len();
    loop
        invariant
            at + mark@.len() <= chars@.len(),
            forall|j: int| occurs_at(chars@, mark@, j) ==> j <= at,
        decreases at,
    {
        if matches_at(chars, mark, at) {
            return Some(at);
        }
        if at == 0 {
            return None;
        }
        at = at - 1;
    }
}

/// Whether two texts are the same.
pub fn equal(a: &str, b: &str) -> (r: bool)
    ensures
        r == (a@ == b@),
{
    let x = chars_of(a);
    let y = chars_of(b);
    if x.len() != y.len() {
        return false;
    }
    let r = matches_at(&x, &y, 0);
    assert(x@.subrange(0, y@.len() as int) == x@);
    r
}

/// Whether `text` begins with `prefix`.
pub open spec fn has_prefix(text: Seq<char>, prefix: Seq<char>) -> bool {
    prefix.len() <= text.len() && text.take(prefix.len() as int) == prefix
}

/// A text begins with a prefix exactly where it is that prefix with something behind it.
pub proof fn lemma_has_prefix(text: Seq<char>, prefix: Seq<char>)
    ensures
        has_prefix(text, prefix) <==> exists|rest: Seq<char>| text == #[trigger] (prefix + rest),
{
    if has_prefix(text, prefix) {
        let rest = text.skip(prefix.len() as int);
        assert(prefix + rest =~= text);
    }
    if exists|rest: Seq<char>| text == #[trigger] (prefix + rest) {
        let rest = choose|rest: Seq<char>| text == #[trigger] (prefix + rest);
        assert((prefix + rest).take(prefix.len() as int) =~= prefix);
    }
}

/// What follows `prefix` in `text`; `None` where `text` does not begin with it.
pub fn strip_prefix(text: &str, prefix: &str) -> (r: Option<String>)
    ensures
        match r {
            Some(rest) => has_prefix(text@, prefix@) && rest@ == text@.skip(
                prefix@.len() as int,
            ),
            None => !has_prefix(text@, prefix@),
        },
{
    let chars = chars_of(text);
    let mark = chars_of(prefix);
    if mark.len() > chars.len() {
        return None;
    }
    assert(text@.subrange(0, prefix@.len() as int) == text@.take(prefix@.len() as int));
    if matches_at(&chars, &mark, 0) {
        let rest = string_of(&chars, mark.len(), chars.len());
        assert(rest@ == text@.skip(prefix@.len() as int));
        Some(rest)
    } else {
        None
    }
}

} // verus!
