use murmur::app::{get_window_size, Action, App, Display, Event, Query, State, TrayDecision};
use murmur::args::{check_wave, Args};
use murmur::audio::{chunks, downmix, level_frames};
use murmur::pipeline::{Pipeline, PipelineEvent};
use murmur::tray::TrayAction;

fn in_state(events: &[Event]) -> App {
    let mut app = App::new();
    for event in events {
        let _ = app.poll_state(*event);
    }
    app
}

const READY: [Event; 1] = [Event::Loaded(true)];
const RECORDING: [Event; 2] = [Event::Loaded(true), Event::Key(true)];
const RECOGNIZING: [Event; 3] = [Event::Loaded(true), Event::Key(true), Event::Stopped(true)];

#[test]
fn talking_is_recorded_recognised_and_pasted() {
    let mut app = App::new();
    assert_eq!(app.query(), Query::ReadyHook);
    assert_eq!(app.draw_ui(), Display::Spinner("Loading"));
    assert_eq!(app.poll_state(Event::Loaded(false)), Action::Nothing);
    assert_eq!(app.state(), State::Loading);
    assert_eq!(app.poll_state(Event::Loaded(true)), Action::Nothing);
    assert_eq!((app.state(), app.query()), (State::Ready, Query::Hotkey));
    assert_eq!(app.draw_ui(), Display::Text("Ready"));
    assert_eq!(app.repaint_after(), None);
    assert_eq!(app.poll_state(Event::Key(false)), Action::Nothing);
    assert_eq!(app.poll_state(Event::Key(true)), Action::StartRecorder);
    assert_eq!((app.state(), app.query()), (State::Recording, Query::Hotkey));
    assert_eq!(app.draw_ui(), Display::Waveform);
    assert_eq!(app.repaint_after(), Some(33));
    assert_eq!(app.poll_state(Event::Key(true)), Action::Nothing);
    assert_eq!(app.poll_state(Event::Key(false)), Action::StopRecorder);
    assert_eq!(app.poll_state(Event::Stopped(true)), Action::Recognize);
    assert_eq!((app.state(), app.query()), (State::Recognizing, Query::Text));
    assert_eq!(app.draw_ui(), Display::Text("Thinking..."));
    assert_eq!(app.repaint_after(), Some(33));
    assert_eq!(app.poll_state(Event::Key(true)), Action::Nothing);
    assert_eq!(app.poll_state(Event::Text), Action::Paste);
    assert_eq!(app.state(), State::Ready);
}

#[test]
fn an_empty_recording_is_not_recognised() {
    let mut app = in_state(&RECORDING);
    assert_eq!(app.poll_state(Event::Stopped(false)), Action::Nothing);
    assert_eq!(app.state(), State::Ready);
}

#[test]
fn a_failed_application_stays_so() {
    let mut app = App::new();
    assert_eq!(app.poll_state(Event::LoadFailed), Action::Nothing);
    for event in [Event::Loaded(true), Event::Key(true), Event::Stopped(true), Event::Text] {
        assert_eq!(app.poll_state(event), Action::Nothing);
        assert_eq!(app.state(), State::Failed);
    }
    assert_eq!(app.query(), Query::Nothing);
    assert_eq!(app.draw_ui(), Display::Text("Error"));
}

#[test]
fn calls_out_of_turn_do_nothing() {
    let mut app = App::new();
    assert_eq!(app.start_record(), Action::Nothing);
    assert_eq!(app.stop_record(true), Action::Nothing);
    assert_eq!(app.paste_text(), Action::Nothing);
    assert_eq!(app.state(), State::Loading);
}

#[test]
fn there_is_one_paste_for_each_recognition() {
    let events = [Event::Text, Event::Key(true), Event::Stopped(true), Event::Key(false)];
    let mut app = in_state(&READY);
    let (mut recognised, mut pasted) = (0, 0);
    for step in 0..200usize {
        match app.poll_state(events[(step * 7 + step / 3) % 4]) {
            Action::Recognize => recognised += 1,
            Action::Paste => pasted += 1,
            _ => {}
        }
        let outstanding = if app.state() == State::Recognizing { 1 } else { 0 };
        assert_eq!(recognised, pasted + outstanding);
    }
    assert!(pasted > 0);
}

#[test]
fn the_device_is_not_changed_while_talking() {
    let select = || TrayAction::SelectDevice("mic".to_string());
    for events in [&[] as &[Event], &READY, &[Event::LoadFailed]] {
        let app = in_state(events);
        assert!(matches!(app.on_tray(select()), TrayDecision::Select(id) if id == "mic"));
    }
    for events in [&RECORDING as &[Event], &RECOGNIZING] {
        let app = in_state(events);
        assert!(matches!(app.on_tray(select()), TrayDecision::Ignore));
        assert!(matches!(app.on_tray(TrayAction::RefreshDevices), TrayDecision::Refresh));
        assert!(matches!(app.on_tray(TrayAction::Quit), TrayDecision::Quit));
    }
}

#[test]
fn window_size() {
    assert_eq!(get_window_size(), (100, 33));
}

fn parse(words: &[&str]) -> Option<String> {
    Args::parse(&words.iter().map(|s| s.to_string()).collect()).file
}

#[test]
fn the_first_word_that_is_no_option_is_the_file() {
    assert_eq!(parse(&["murmur"]), None);
    assert_eq!(parse(&["murmur", "a.wav", "b.wav"]), Some("a.wav".to_string()));
    assert_eq!(parse(&["murmur", "-v", "--", "b.wav"]), Some("b.wav".to_string()));
    assert_eq!(parse(&["murmur", "-v"]), None);
    assert_eq!(parse(&["murmur", ""]), Some(String::new()));
    assert_eq!(parse(&[]), None);
}

#[test]
fn recordings_are_checked() {
    assert_eq!(check_wave("x.wav", Some(5)), Ok(()));
    assert_eq!(check_wave("x.wav", Some(0)), Err("empty audio: x.wav".to_string()));
    assert_eq!(check_wave("x.wav", None), Err("failed to read WAV: x.wav".to_string()));
}

fn names(events: Vec<PipelineEvent>) -> Vec<String> {
    events
        .into_iter()
        .map(|e| match e {
            PipelineEvent::Ready => "ready".to_string(),
            PipelineEvent::Recognized(t) => format!("text {t}"),
            PipelineEvent::Failed(m) => format!("failed {m}"),
        })
        .collect()
}

#[test]
fn the_pipeline_tells_when_it_is_ready() {
    let mut pipeline = Pipeline::new();
    assert!(pipeline.is_loading());
    assert!(!pipeline.start());
    assert!(!pipeline.started(true));
    assert!(names(pipeline.poll(Ok(false), vec![])).is_empty());
    assert_eq!(names(pipeline.poll(Ok(true), vec!["a".into()])), vec!["ready", "text a"]);
    assert!(!pipeline.is_loading());
    let events = pipeline.poll(Err("late".into()), vec!["b".into(), "c".into()]);
    assert_eq!(names(events), vec!["text b", "text c"]);
}

#[test]
fn the_pipeline_tells_when_it_failed() {
    let mut pipeline = Pipeline::new();
    assert_eq!(names(pipeline.poll(Err("no model".into()), vec![])), vec!["failed no model"]);
    assert!(!pipeline.is_loading());
}

#[test]
fn audio_is_pushed_only_during_a_recording() {
    let mut pipeline = Pipeline::new();
    let _ = pipeline.poll(Ok(true), vec![]);
    assert_eq!(pipeline.forward(vec![0.5f32]), None);
    assert!(!pipeline.stop());
    assert!(pipeline.start());
    assert!(!pipeline.started(false));
    assert_eq!(pipeline.forward(vec![0.5f32]), None);
    assert!(pipeline.started(true));
    assert!(!pipeline.start());
    assert!(!pipeline.started(true));
    assert_eq!(pipeline.forward(vec![0.5f32]), Some(vec![0.5]));
    assert_eq!(pipeline.forward(Vec::<f32>::new()), None);
    assert!(pipeline.stop());
    assert_eq!(Pipeline::remainder(Ok(vec![0.25f32])), Some(vec![0.25]));
    assert_eq!(Pipeline::remainder(Ok(Vec::<f32>::new())), None);
    assert_eq!(Pipeline::remainder::<f32>(Err("busy".into())), None);
    assert_eq!(pipeline.forward(vec![0.5f32]), None);
    assert!(!pipeline.stop());
}

#[test]
fn the_pipeline_keeps_its_device_while_talking() {
    let mut pipeline = Pipeline::new();
    assert!(pipeline.may_select());
    let _ = pipeline.poll(Ok(true), vec![]);
    assert!(pipeline.may_select());
    assert!(pipeline.started(true));
    assert!(!pipeline.may_select());
    assert!(pipeline.stop());
    assert!(!pipeline.may_select());
    assert!(pipeline.started(true));
    assert!(pipeline.stop());
    let _ = pipeline.poll(Ok(false), vec!["one".into()]);
    assert!(!pipeline.may_select());
    let _ = pipeline.poll(Ok(false), vec![String::new()]);
    assert!(pipeline.may_select());
    assert!(!pipeline.stop());
    assert!(pipeline.may_select());
}

#[test]
fn the_models_are_told_of_once() {
    let mut pipeline = Pipeline::new();
    let mut told = Vec::new();
    for got in [Ok(false), Ok(true), Ok(true), Err("late".to_string()), Ok(false)] {
        told.extend(names(pipeline.poll(got, vec![])));
    }
    assert_eq!(told, vec!["ready"]);
}

#[test]
fn audio_is_cut_into_chunks() {
    assert_eq!(chunks(1100, 512), vec![0..512, 512..1024, 1024..1100]);
    assert_eq!(chunks(1024, 512), vec![0..512, 512..1024]);
    assert!(chunks(0, 512).is_empty());
    assert_eq!(chunks(3, usize::MAX), vec![0..3]);
}

#[test]
fn channels_are_brought_down_to_one() {
    let average = |a: f32, b: f32| (a + b) / 2.0;
    let samples = [0.5f32, 0.25, 1.0, 0.0, 0.75];
    assert_eq!(downmix(&samples, 0, average), samples.to_vec());
    assert_eq!(downmix(&samples, 1, average), samples.to_vec());
    assert_eq!(downmix(&samples, 2, average), vec![0.375, 0.5, 0.75]);
    assert_eq!(downmix(&samples, 3, average), vec![0.5, 0.0]);
    assert!(downmix(&[], 2, average).is_empty());
}

#[test]
fn loudness_is_measured_in_overlapping_windows() {
    assert!(level_frames(319).is_empty());
    assert_eq!(level_frames(320), vec![0..320]);
    assert_eq!(level_frames(640), vec![0..320, 160..480, 320..640]);
    assert_eq!(level_frames(799), vec![0..320, 160..480, 320..640]);
}
