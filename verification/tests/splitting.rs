use murmur::refiner::split::{
    is_boundary, split_half, split_sentences, split_windows, strip_reasoning, tail_of, HARD_LIMIT,
    WINDOW_CHAR_BUDGET,
};

#[test]
fn boundaries() {
    for c in ['。', '！', '？', '!', '?', '；', ';', '\n'] {
        assert!(is_boundary(c, None));
        assert!(is_boundary(c, Some(&'x')));
    }
    assert!(is_boundary('.', None));
    assert!(is_boundary('.', Some(&' ')));
    assert!(is_boundary('.', Some(&'\u{3000}')));
    assert!(!is_boundary('.', Some(&'5')));
    assert!(!is_boundary('，', None));
    assert!(!is_boundary('a', Some(&' ')));
}

#[test]
fn sentences_end_at_boundaries() {
    assert_eq!(split_sentences("今天好。明天呢？"), vec!["今天好。", "明天呢？"]);
    assert_eq!(split_sentences("v1.5 is out. Really"), vec!["v1.5 is out.", " Really"]);
    assert_eq!(split_sentences("no end"), vec!["no end"]);
    assert_eq!(split_sentences("a\n\nb"), vec!["a\n", "\n", "b"]);
    assert!(split_sentences("").is_empty());
}

#[test]
fn a_sentence_is_cut_at_the_limit() {
    let long = "字".repeat(2 * HARD_LIMIT + 5);
    let parts = split_sentences(&long);
    let lens: Vec<usize> = parts.iter().map(|p| p.chars().count()).collect();
    assert_eq!(lens, vec![800, 800, 5]);
    assert_eq!(parts.concat(), long);
}

#[test]
fn a_sentence_of_exactly_the_limit_is_one() {
    let exact = "a".repeat(HARD_LIMIT);
    assert_eq!(split_sentences(&exact), vec![exact.clone()]);
}

#[test]
fn windows_hold_whole_sentences() {
    let sentence = format!("{}。", "字".repeat(699));
    let content = sentence.repeat(5);
    let parts = split_windows(&content);
    let lens: Vec<usize> = parts.iter().map(|p| p.chars().count()).collect();
    assert_eq!(lens, vec![1400, 1400, 700]);
    assert_eq!(parts.concat(), content);
    assert!(lens.iter().all(|n| *n <= WINDOW_CHAR_BUDGET));
}

#[test]
fn a_window_may_be_filled_to_the_last_character() {
    let sentence = format!("{}。", "字".repeat(749));
    assert_eq!(split_windows(&sentence.repeat(2)), vec![sentence.repeat(2)]);
    assert_eq!(split_windows(&sentence.repeat(3)).len(), 2);
}

#[test]
fn an_empty_text_has_one_empty_window() {
    assert_eq!(split_windows(""), vec![String::new()]);
}

#[test]
fn halves_are_cut_behind_a_sentence() {
    let half = |s: &str| split_half(s);
    assert_eq!(half("一二。三四。五六"), Some(("一二。三四。".into(), "五六".into())));
    assert_eq!(half("abcdef"), Some(("abc".into(), "def".into())));
    assert_eq!(half("ab. cd."), None);
    assert_eq!(half("a! b c"), Some(("a!".into(), "b c".into())));
    assert_eq!(half("a"), None);
    assert_eq!(half(""), None);
    assert_eq!(half("ab"), Some(("a".into(), "b".into())));
    assert_eq!(half("     a"), None);
}

#[test]
fn halves_are_trimmed_and_shorter() {
    let (left, right) = split_half("one two? three  four").unwrap();
    assert_eq!(left, "one two? t");
    assert_eq!(right, "hree  four");
    assert!(left.len() < 20 && right.len() < 20);
}

#[test]
fn tails() {
    assert_eq!(tail_of("abcdef", 3), "def");
    assert_eq!(tail_of("abc", 3), "abc");
    assert_eq!(tail_of("ab", 3), "ab");
    assert_eq!(tail_of("", 3), "");
    assert_eq!(tail_of("一二三四", 2), "三四");
    assert_eq!(tail_of("abc", 0), "c");
    assert_eq!(tail_of("", 0), "");
    let t = tail_of("abcdef", 4);
    assert_eq!(tail_of(&t, 4), t);
}

#[test]
fn reasoning_is_dropped() {
    assert_eq!(strip_reasoning("<think>hm</think>\n好。"), "\n好。");
    assert_eq!(strip_reasoning("a</think>b</think>c"), "c");
    assert_eq!(strip_reasoning("plain"), "plain");
    assert_eq!(strip_reasoning("x</think>"), "");
}

#[test]
fn windows_are_whole_sentences_and_as_few_as_possible() {
    let sentence = |c: &str, n: usize| format!("{}。", c.repeat(n - 1));
    let sentences =
        [sentence("甲", 700), sentence("乙", 700), sentence("丙", 200), sentence("丁", 800)];
    let content = sentences.concat();
    assert_eq!(split_sentences(&content), sentences.to_vec());
    let windows = split_windows(&content);
    assert_eq!(windows, vec![sentences[..2].concat(), sentences[2..].concat()]);
    assert!(windows.len() >= content.chars().count().div_ceil(WINDOW_CHAR_BUDGET));
}
