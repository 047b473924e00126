use murmur::refiner::prompt::{build_prompt, system_message, SYSTEM_PROMPT};
use murmur::refiner::session::{RefineError, RefineSession, Request};

/// Runs a session with a model that counts characters as tokens and answers with `answer`.
fn refine(
    content: &str,
    prompt_tokens: fn(usize) -> usize,
    answer: fn(&str) -> String,
) -> (Result<String, RefineError>, Vec<String>) {
    let mut session = RefineSession::begin(content);
    let mut asked = Vec::new();
    let mut last = String::new();
    loop {
        match session.request() {
            Request::Measure { content, chat } => {
                asked.push(chat[1].text.clone());
                let n = content.chars().count();
                last = content;
                session.measured(prompt_tokens(n), n);
            }
            Request::Generate { budget } => {
                assert_eq!(budget, (last.chars().count() + 64).min(2048));
                session.generated(&answer(&last));
            }
            Request::Nothing => break,
        }
    }
    match session.into_outcome() {
        Some(result) => (result, asked),
        None => panic!("a session that asks for nothing is over"),
    }
}

fn echo(s: &str) -> String {
    s.to_string()
}

fn small(n: usize) -> usize {
    n + 10
}

#[test]
fn a_short_transcript_is_one_window() {
    let (result, asked) = refine("  嗯，你好。 ", small, |s| format!("<think></think>\n{s}\n"));
    assert_eq!(result.ok(), Some("嗯，你好。".to_string()));
    assert_eq!(asked, vec!["Raw transcript:\n嗯，你好。\nOrganized:\n/no_think"]);
}

#[test]
fn a_blank_transcript_is_refused() {
    let (result, asked) = refine(" \n\u{3000}", small, echo);
    assert!(matches!(result, Err(RefineError::EmptyInput)));
    assert!(asked.is_empty());
}

#[test]
fn an_empty_answer_is_an_error() {
    let (result, _) = refine("hello", small, |_| "<think>nothing</think>  ".to_string());
    assert!(matches!(result, Err(RefineError::EmptyOutput)));
}

#[test]
fn windows_are_shown_the_end_of_the_text_before_them() {
    let first = format!("{}。", "甲".repeat(799));
    let second = format!("{}。", "乙".repeat(799));
    let content = format!("{first}{second}");
    let (result, asked) = refine(&content, small, echo);
    assert_eq!(result.ok(), Some(content));
    assert_eq!(asked.len(), 2);
    let before = format!("{}。", "甲".repeat(199));
    assert_eq!(
        asked[1],
        format!(
            "Previous context (for understanding only; do not repeat, do not output):\n{before}\nRaw transcript:\n{second}\nOrganized:\n/no_think"
        )
    );
}

#[test]
fn latin_windows_are_joined_with_a_space() {
    let first = format!("{}!", "a".repeat(799));
    let second = format!("{}!", "b".repeat(799));
    let (result, _) = refine(&format!("{first}{second}"), small, echo);
    assert_eq!(result.ok(), Some(format!("{first} {second}")));
}

#[test]
fn chinese_windows_are_joined_without_one() {
    let first = format!("{}!", "a".repeat(799));
    let second = format!("{}。", "乙".repeat(799));
    let (result, _) = refine(&format!("{first}{second}"), small, echo);
    assert_eq!(result.ok(), Some(format!("{first}{second}")));
}

#[test]
fn a_window_that_does_not_fit_is_halved() {
    let (result, asked) = refine("一二。三四。五六", |n| if n > 6 { 9000 } else { 10 }, echo);
    assert_eq!(result.ok(), Some("一二。三四。五六".to_string()));
    assert_eq!(asked.len(), 3);
    assert!(asked[1].ends_with("一二。三四。\nOrganized:\n/no_think"));
    assert!(asked[2].contains("output):\n一二。三四。\nRaw transcript:\n五六\n"));
}

#[test]
fn halving_goes_on_until_the_pieces_fit() {
    let (result, asked) = refine("abcdefgh", |n| if n > 2 { 9000 } else { 10 }, |s| {
        s.to_uppercase()
    });
    assert_eq!(result.ok(), Some("ABCDEFGH".to_string()));
    assert_eq!(asked.len(), 7);
}

#[test]
fn nothing_but_white_space_is_left_out() {
    let content = " one two  three\tfour\u{3000} five six seven ";
    let mut session = RefineSession::begin(content);
    let mut answered = String::new();
    let mut last = String::new();
    loop {
        match session.request() {
            Request::Measure { content, .. } => {
                let n = content.chars().count();
                last = content;
                session.measured(if n > 9 { 9000 } else { 10 }, n);
            }
            Request::Generate { .. } => {
                answered.push_str(&last);
                session.generated(&last);
            }
            Request::Nothing => break,
        }
    }
    let said = |s: &str| s.chars().filter(|c| !c.is_whitespace()).collect::<String>();
    assert_eq!(said(&answered), said(content));
    assert!(matches!(session.into_outcome(), Some(Ok(_))));
}

#[test]
fn what_cannot_be_halved_does_not_fit() {
    let (result, _) = refine("a", |_| 9000, echo);
    assert!(matches!(result, Err(RefineError::DoesNotFit)));
}

#[test]
fn the_context_is_filled_up_to_its_margin() {
    let mut session = RefineSession::begin("hello");
    session.measured(8192 - 128 - 69, 5);
    assert!(matches!(session.request(), Request::Generate { budget: 69 }));
    let mut session = RefineSession::begin("h");
    session.measured(8192 - 128 - 65 + 1, 1);
    assert!(matches!(session.into_outcome(), Some(Err(RefineError::DoesNotFit))));
}

#[test]
fn an_answer_is_capped() {
    let mut session = RefineSession::begin("hello");
    session.measured(10, usize::MAX);
    assert!(matches!(session.request(), Request::Generate { budget: 2048 }));
}

#[test]
fn a_failure_of_the_model_ends_the_session() {
    let mut session = RefineSession::begin("hello");
    session.failed("out of memory".to_string());
    assert!(matches!(session.request(), Request::Nothing));
    session.generated("late");
    session.measured(1, 1);
    session.failed("again".to_string());
    match session.into_outcome() {
        Some(Err(err)) => assert_eq!(err.message(), "out of memory"),
        _ => panic!("the session failed"),
    }
}

#[test]
fn unasked_news_changes_nothing() {
    let mut session = RefineSession::begin("hello");
    session.generated("unasked");
    assert!(matches!(session.request(), Request::Measure { .. }));
    session.measured(10, 1);
    session.measured(9000, 1);
    assert!(matches!(session.request(), Request::Generate { budget: 65 }));
    assert!(session.into_outcome().is_none());
}

#[test]
fn errors_have_words() {
    assert_eq!(RefineError::EmptyInput.message(), "refiner received empty content");
    assert_eq!(
        RefineError::DoesNotFit.message(),
        "refiner window does not fit context window"
    );
    assert_eq!(RefineError::EmptyOutput.message(), "refiner returned empty output");
    assert_eq!(RefineError::Model("m".to_string()).message(), "m");
}

#[test]
fn chats_begin_with_the_instructions() {
    let chat = build_prompt("hi", "");
    assert_eq!(chat.len(), 2);
    assert_eq!(chat[0].role, "system");
    assert_eq!(chat[0].text, SYSTEM_PROMPT);
    assert_eq!(chat[1].role, "user");
    assert_eq!(chat[1].text, "Raw transcript:\nhi\nOrganized:\n/no_think");
    assert_eq!(system_message().text, SYSTEM_PROMPT);
    assert!(SYSTEM_PROMPT.starts_with("You are a voice input text organizer"));
    assert!(SYSTEM_PROMPT.ends_with("第三是进度。"));
}
