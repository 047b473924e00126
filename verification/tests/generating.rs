use murmur::refiner::create::{RefinerSetup, Step};
use murmur::refiner::generate::{
    common_prefix_len, plan_prefill, BatchEntry, CacheClear, Generation,
};

#[test]
fn shared_heads() {
    assert_eq!(common_prefix_len(&[1, 2, 3], &[1, 2, 4]), 2);
    assert_eq!(common_prefix_len(&[1, 2], &[1, 2, 4]), 2);
    assert_eq!(common_prefix_len(&[], &[1]), 0);
    assert_eq!(common_prefix_len(&[5], &[6]), 0);
}

#[test]
fn the_shared_head_is_kept() {
    let plan = plan_prefill(&[1, 2, 7, 8], &[1, 2, 3]);
    assert_eq!(plan.clear, CacheClear::From(2));
    assert_eq!(plan.capacity, 2);
    assert_eq!(
        plan.batch,
        vec![
            BatchEntry { token: 7, pos: 2, logits: false },
            BatchEntry { token: 8, pos: 3, logits: true },
        ]
    );
}

#[test]
fn without_a_shared_head_all_is_read() {
    let plan = plan_prefill(&[4, 5], &[]);
    assert_eq!(plan.clear, CacheClear::All);
    assert_eq!(
        plan.batch,
        vec![
            BatchEntry { token: 4, pos: 0, logits: false },
            BatchEntry { token: 5, pos: 1, logits: true },
        ]
    );
}

#[test]
fn a_prompt_inside_the_cache_needs_no_reading() {
    let plan = plan_prefill(&[1, 2], &[1, 2, 3]);
    assert_eq!(plan.clear, CacheClear::From(2));
    assert_eq!(plan.capacity, 1);
    assert!(plan.batch.is_empty());
}

#[test]
fn reading_as_planned_leaves_the_prompt_in_the_cache() {
    let system = [1, 2, 3];
    let mut cache = vec![1, 2, 3, 9, 9, 9];
    for tokens in [vec![1, 2, 3, 4], vec![1, 2, 3, 5, 6], vec![1, 2, 3]] {
        let plan = plan_prefill(&tokens, &system);
        match plan.clear {
            CacheClear::All => cache.clear(),
            CacheClear::From(pos) => cache.truncate(pos as usize),
        }
        for entry in plan.batch {
            assert_eq!(entry.pos as usize, cache.len());
            cache.push(entry.token);
        }
        assert_eq!(cache, tokens);
    }
}

#[test]
fn an_answer_grows_token_by_token() {
    let mut answer = Generation::begin(10, 2);
    assert!(answer.wants_token());
    assert_eq!(answer.accept(7, "你".as_bytes()), BatchEntry { token: 7, pos: 10, logits: true });
    assert!(answer.wants_token());
    assert_eq!(answer.accept(8, "好".as_bytes()), BatchEntry { token: 8, pos: 11, logits: true });
    assert!(!answer.wants_token());
    assert_eq!(answer.into_text(), "你好");
}

#[test]
fn an_answer_can_end_early() {
    let mut answer = Generation::begin(3, 100);
    let _ = answer.accept(1, b"ok");
    answer.end();
    assert!(!answer.wants_token());
    assert_eq!(answer.into_text(), "ok");
}

#[test]
fn no_budget_no_answer() {
    let answer = Generation::begin(3, 0);
    assert!(!answer.wants_token());
    assert_eq!(answer.into_text(), "");
}

#[test]
fn a_model_is_set_up_step_by_step() {
    let mut setup = RefinerSetup::new();
    assert!(matches!(setup.step(), Step::LoadModel { gpu_layers: 999 }));
    setup.tokenized(vec![9]);
    assert!(matches!(setup.step(), Step::LoadModel { .. }));
    setup.succeeded();
    assert!(matches!(setup.step(), Step::ReadTemplate));
    setup.succeeded();
    match setup.step() {
        Step::Tokenize { chat } => {
            assert_eq!(chat.len(), 1);
            assert_eq!(chat[0].role, "system");
        }
        _ => panic!("the instructions are next"),
    }
    setup.succeeded();
    assert!(matches!(setup.step(), Step::Tokenize { .. }));
    setup.tokenized(vec![3, 4]);
    assert!(matches!(setup.step(), Step::OpenContext { size: 8192 }));
    setup.succeeded();
    match setup.step() {
        Step::Read { capacity, batch } => {
            assert_eq!(capacity, 2);
            assert_eq!(
                batch,
                vec![
                    BatchEntry { token: 3, pos: 0, logits: false },
                    BatchEntry { token: 4, pos: 1, logits: true },
                ]
            );
        }
        _ => panic!("the cache is next"),
    }
    setup.succeeded();
    assert!(matches!(setup.step(), Step::Done));
    setup.failed("late".into());
    assert!(matches!(setup.step(), Step::Done));
    assert_eq!(setup.into_tokens(), vec![3, 4]);
}

#[test]
fn a_setup_stops_at_the_first_failure() {
    let complaints = [
        "failed to load refiner model: reason",
        "refiner model has no chat template: reason",
        "reason",
        "reason",
    ];
    for (steps, complaint) in complaints.into_iter().enumerate() {
        let mut setup = RefinerSetup::new();
        for _ in 0..steps.min(2) {
            setup.succeeded();
        }
        if steps > 2 {
            setup.tokenized(vec![1]);
        }
        setup.failed("reason".into());
        assert!(matches!(setup.step(), Step::Failed(m) if m == complaint));
        setup.succeeded();
        assert!(matches!(setup.step(), Step::Failed(_)));
    }
}

fn answer_of(pieces: &[&[u8]]) -> String {
    let mut answer = Generation::begin(0, pieces.len());
    for piece in pieces {
        assert!(answer.has_room(piece));
        let _ = answer.accept(1, piece);
    }
    answer.into_text()
}

#[test]
fn characters_may_be_spread_over_tokens() {
    let bytes = "a你😀好".as_bytes();
    let pieces: Vec<&[u8]> = bytes.chunks(1).collect();
    assert_eq!(answer_of(&pieces), "a你😀好");
    assert_eq!(answer_of(&[&bytes[..3], &bytes[3..6], &bytes[6..]]), "a你😀好");
    assert_eq!(answer_of(&[b"", b"x", b""]), "x");
}

#[test]
fn an_unfinished_character_is_left_out() {
    let bytes = "你好".as_bytes();
    assert_eq!(answer_of(&[&bytes[..5]]), "你");
}

#[test]
fn malformed_bytes_are_replaced() {
    assert_eq!(answer_of(&[b"a\xffb"]), "a\u{fffd}b");
}

#[test]
fn an_answer_agrees_with_decoding_token_by_token() {
    let pieces: [&[u8]; 6] = [b"\xe4", b"\xbd\xa0", b"\xff", b"ok\xe5", b"\xa5\xbd", b"\xe4\xbd"];
    let mut decoder = encoding_rs::UTF_8.new_decoder();
    let mut text = String::new();
    for piece in pieces {
        let mut part = String::with_capacity(64);
        let _ = decoder.decode_to_string(piece, &mut part, false);
        text.push_str(&part);
    }
    assert_eq!(answer_of(&pieces), text);
}
