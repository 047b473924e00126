use std::sync::mpsc;

use murmur::hub::resolve::ModelResolver;
use murmur::recognizer::load::{Loader, Task};
use murmur::recognizer::ready::{interpret, ReadyHook, Received};
use murmur::recognizer::run::{
    denoise, on_detected, on_recognized, on_refined, prepare, recognize, strip_control_prefix, Next,
    Treatment, Utterance,
};
use murmur::recognizer::segments::{
    can_segment, cut_groups, detected_span, merge_detected, segments, MAX_CHUNK, MERGE_GAP,
    SEGMENT_MARGIN,
};
use murmur::refiner::session::RefineError;

#[test]
fn constants_are_the_seconds_they_stand_for() {
    assert_eq!(SEGMENT_MARGIN, (0.8f32 * 16_000f32) as usize);
    assert_eq!(MERGE_GAP, (0.6f32 * 16_000f32) as usize);
    assert_eq!(MAX_CHUNK, (20.0f32 * 16_000f32) as usize);
}

#[test]
fn reports_are_never_negative() {
    assert_eq!(detected_span(100, 50), (100, 150));
    assert_eq!(detected_span(-5, 50), (0, 50));
    assert_eq!(detected_span(100, -1), (100, 100));
    assert_eq!(detected_span(i32::MAX, i32::MAX), (2147483647, 4294967294));
}

#[test]
fn speech_is_widened_inside_the_recording() {
    assert_eq!(merge_detected(&vec![(20_000, 30_000)], 100_000), vec![(7_200, 42_800)]);
    assert_eq!(merge_detected(&vec![(5_000, 30_000)], 35_000), vec![(0, 35_000)]);
    assert_eq!(merge_detected(&vec![(0, usize::MAX)], 35_000), vec![(0, 35_000)]);
}

#[test]
fn close_stretches_are_merged() {
    let merged = merge_detected(&vec![(20_000, 30_000), (65_200, 70_000)], 1_000_000);
    assert_eq!(merged, vec![(7_200, 82_800)]);
    let apart = merge_detected(&vec![(20_000, 30_000), (65_201, 70_000)], 1_000_000);
    assert_eq!(apart, vec![(7_200, 42_800), (52_401, 82_800)]);
}

#[test]
fn a_stretch_inside_another_does_not_shorten_it() {
    let merged = merge_detected(&vec![(20_000, 90_000), (25_000, 30_000)], 1_000_000);
    assert_eq!(merged, vec![(7_200, 102_800)]);
}

#[test]
fn long_groups_are_cut() {
    assert_eq!(cut_groups(&vec![(0, 320_000)]), vec![0..320_000]);
    assert_eq!(cut_groups(&vec![(0, 320_001)]), vec![0..320_000, 320_000..320_001]);
    assert_eq!(
        cut_groups(&vec![(10, 700_010), (800_000, 800_000), (900_000, 900_001)]),
        vec![10..320_010, 320_010..640_010, 640_010..700_010, 900_000..900_001]
    );
}

#[test]
fn segments_are_orderly_and_cover_speech() {
    let detected = vec![(30_000, 40_000), (200_000, 900_000), (950_000, 960_000)];
    let len = 965_000;
    let all = segments(&detected, len);
    for pair in all.windows(2) {
        assert!(pair[0].end <= pair[1].start);
    }
    for segment in &all {
        assert!(segment.start < segment.end && segment.end <= len);
        assert!(segment.end - segment.start <= MAX_CHUNK);
    }
    for (start, end) in detected {
        for p in [start, (start + end) / 2, end - 1] {
            assert!(all.iter().any(|s| s.contains(&p)));
        }
    }
}

#[test]
fn segments_hold_speech_margins_and_short_gaps_only() {
    let len = 400_000;
    let detected = vec![(20_000, 30_000), (60_000, 61_000), (200_000, 210_000)];
    let near = |p: usize| {
        detected.iter().any(|(from, to)| from - SEGMENT_MARGIN <= p && p < to + SEGMENT_MARGIN)
    };
    let held: usize = segments(&detected, len).iter().map(|r| r.len()).sum();
    let outside = segments(&detected, len).into_iter().flatten().filter(|p| !near(*p)).count();
    let gap = (60_000 - SEGMENT_MARGIN) - (30_000 + SEGMENT_MARGIN);
    assert!(gap <= MERGE_GAP);
    assert_eq!(outside, gap);
    assert_eq!(held - outside, 10_000 + 1_000 + 10_000 + 6 * SEGMENT_MARGIN);
}

#[test]
fn no_speech_no_segments() {
    assert!(segments(&Vec::new(), 1000).is_empty());
}

#[test]
fn speech_behind_the_recording_cannot_be_segmented() {
    assert!(can_segment(&vec![(900, 1000)], 1000));
    assert!(can_segment(&vec![(13_800, 13_900)], 1000));
    assert!(!can_segment(&vec![(13_801, 13_900)], 1000));
    assert!(can_segment(&Vec::new(), 0));
}

#[test]
fn audio_is_prepared_in_order() {
    assert_eq!(
        prepare(48_000),
        vec![
            Treatment::Resample { from: 48_000, to: 16_000 },
            Treatment::HighPass { sample_rate: 16_000, cutoff_hz: 100 },
            Treatment::Denoise { sample_rate: 16_000 },
            Treatment::Normalize { target_rms_dbfs: -20, max_gain_db: 26 },
            Treatment::LimitPeak { ceiling_dbfs: -1 },
        ]
    );
}

#[test]
fn audio_is_kept_where_the_denoiser_returns_none() {
    assert_eq!(denoise(vec![0.5f32, 0.25], vec![0.1]), vec![0.1]);
    assert_eq!(denoise(vec![0.5f32, 0.25], vec![]), vec![0.5, 0.25]);
    assert_eq!(denoise(Vec::<f32>::new(), vec![0.1]), Vec::<f32>::new());
}

#[test]
fn control_prefixes_are_stripped() {
    assert_eq!(strip_control_prefix("language Chinese<asr_text> 你好 "), "你好");
    assert_eq!(strip_control_prefix("a<asr_text>b<asr_text>c"), "c");
    assert_eq!(strip_control_prefix(" plain "), " plain ");
    assert_eq!(strip_control_prefix("x<asr_text>"), "");
}

#[test]
fn segment_texts_are_put_together() {
    let outputs = vec![
        Some("  <asr_text>今天 ".to_string()),
        None,
        Some("   ".to_string()),
        Some(" 天气好。".to_string()),
    ];
    assert_eq!(recognize(&outputs), "今天天气好。");
    assert_eq!(recognize(&Vec::new()), "");
}

#[test]
fn silence_ends_a_recognition() {
    assert!(matches!(on_detected(&Vec::new(), 16_000), Next::Done(t) if t.is_empty()));
    match on_detected(&vec![(20_000, 30_000)], 100_000) {
        Next::Recognize(parts) => assert_eq!(parts, vec![7_200..42_800]),
        _ => panic!("there is speech"),
    }
}

#[test]
fn a_blank_transcript_ends_a_recognition() {
    assert!(matches!(on_recognized(&vec![Some(" ".into()), None]), Next::Done(t) if t.is_empty()));
    assert!(matches!(on_recognized(&vec![Some(" a ".into())]), Next::Refine(t) if t == "a"));
}

#[test]
fn the_transcript_stands_in_for_a_failed_refinement() {
    assert_eq!(on_refined("raw".into(), Ok("fine".into())), "fine");
    assert_eq!(on_refined("raw".into(), Err(RefineError::EmptyOutput)), "raw");
}

#[test]
fn an_utterance_gathers_audio() {
    let mut utterance: Utterance<f32> = Utterance::begin();
    utterance.push(vec![0.5, 0.25], 44_100);
    utterance.push(vec![0.125], 48_000);
    assert_eq!(utterance.end(), (vec![0.5, 0.25, 0.125], 48_000));
    assert_eq!(Utterance::<f32>::begin().end(), (vec![], 16_000));
}

#[test]
fn the_ready_hook_tells_what_the_channel_holds() {
    let (tx, rx) = mpsc::channel();
    let hook = ReadyHook::new(rx);
    assert_eq!(hook.poll(), Ok(false));
    assert!(tx.send(Ok(())).is_ok());
    assert_eq!(hook.poll(), Ok(true));
    assert!(tx.send(Err("no network".to_string())).is_ok());
    assert_eq!(hook.poll(), Err("no network".to_string()));
    drop(tx);
    assert_eq!(hook.poll(), Err("ready hook internal error".to_string()));
}

#[test]
fn every_find_has_its_answer() {
    assert_eq!(interpret(Received::Told(Ok(()))), Ok(true));
    assert_eq!(interpret(Received::Told(Err("e".into()))), Err("e".to_string()));
    assert_eq!(interpret(Received::Empty), Ok(false));
    assert_eq!(
        interpret(Received::Disconnected),
        Err("ready hook internal error".to_string())
    );
}

fn model() -> murmur::hub::resolve::Model {
    let mut resolver = ModelResolver::new();
    for dir in ["/d", "/a", "/v", "/r"] {
        resolver.downloaded(dir.to_string());
    }
    match resolver.model() {
        Some(model) => model,
        None => panic!("all is downloaded"),
    }
}

#[test]
fn models_are_loaded_one_after_the_other() {
    let mut loader = Loader::new();
    assert!(matches!(loader.task(), Task::Files));
    loader.loaded();
    assert!(matches!(loader.task(), Task::Files));
    loader.found(model());
    match loader.task() {
        Task::Denoiser(s) => {
            assert_eq!((s.model.dir.as_str(), s.model.name.as_str()), ("/d", "gtcrn_simple.onnx"));
            assert_eq!((s.num_threads, s.provider.as_str()), (1, "cpu"));
        }
        _ => panic!("the denoiser is next"),
    }
    loader.loaded();
    match loader.task() {
        Task::Asr(s) => {
            assert_eq!(s.conv_frontend.name, "conv_frontend.onnx");
            assert_eq!(s.encoder.name, "encoder.int8.onnx");
            assert_eq!(s.decoder.name, "decoder.int8.onnx");
            assert_eq!((s.tokenizer.dir.as_str(), s.tokenizer.name.as_str()), ("/a", "tokenizer"));
            assert_eq!((s.max_new_tokens, s.num_threads), (512, 8));
        }
        _ => panic!("the recogniser is next"),
    }
    loader.loaded();
    match loader.task() {
        Task::Vad(s) => {
            assert_eq!((s.model.dir.as_str(), s.model.name.as_str()), ("/v", "silero_vad_v5.onnx"));
            assert_eq!(s.threshold_permille, 500);
            assert_eq!((s.min_silence_ms, s.min_speech_ms, s.max_speech_ms), (250, 250, 5000));
            assert_eq!((s.sample_rate, s.num_threads, s.buffer_seconds), (16_000, 1, 30));
            assert_eq!(s.provider, "cpu");
        }
        _ => panic!("the detector is next"),
    }
    loader.loaded();
    match loader.task() {
        Task::Refiner(path) => {
            assert_eq!((path.dir.as_str(), path.name.as_str()), ("/r", "Qwen3-4B-Q4_K_M.gguf"));
        }
        _ => panic!("the refiner is next"),
    }
    loader.loaded();
    assert!(matches!(loader.task(), Task::Ready));
    loader.failed("late".into());
    assert!(matches!(loader.task(), Task::Ready));
}

#[test]
fn loading_stops_at_the_first_failure() {
    let mut loader = Loader::new();
    loader.failed("no network".into());
    assert!(matches!(loader.task(), Task::Failed(m) if m == "no network"));
    loader.found(model());
    assert!(matches!(loader.task(), Task::Failed(m) if m == "no network"));

    let complaints = [
        "failed to create speech denoiser",
        "failed to create recognizer",
        "failed to create recognizer",
        "reason",
    ];
    for (steps, complaint) in complaints.into_iter().enumerate() {
        let mut loader = Loader::new();
        loader.found(model());
        for _ in 0..steps {
            loader.loaded();
        }
        loader.failed("reason".into());
        assert!(matches!(loader.task(), Task::Failed(m) if m == complaint));
    }
}
