use murmur::hub::progress::{
    set_length, set_position, Bar, BarUpdate, DownloadEvent, FileProgress, PrintProgress, ProgressEvent,
};
use murmur::hub::resolve::ModelResolver;

#[test]
fn downloads_follow_each_other() {
    let mut resolver = ModelResolver::new();
    let mut seen = Vec::new();
    while let Some(d) = resolver.next() {
        seen.push(format!("{}/{} {:?} {} {}", d.owner, d.repo, d.patterns, d.workers, d.label));
        assert!(resolver.model().is_none());
        resolver.downloaded(format!("/cache/{}", d.repo));
    }
    assert_eq!(
        seen,
        vec![
            r#"csukuangfj/speech-enhancement-models ["gtcrn_simple.onnx"] 1 gtcrn"#,
            r#"solavr/sherpa-onnx-qwen3-asr-1.7B-int8 ["conv_frontend.onnx", "encoder.int8.onnx", "decoder.int8.onnx", "decoder.int8.onnx.data", "tokenizer/*"] 3 qwen3-asr-1.7B"#,
            r#"csukuangfj/vad ["silero_vad_v5.onnx"] 3 silero-vad-v5"#,
            r#"unsloth/Qwen3-4B-GGUF ["Qwen3-4B-Q4_K_M.gguf"] 1 qwen3-4b-gguf"#,
        ]
    );
    let model = resolver.model().unwrap();
    assert_eq!(model.denoiser.dir, "/cache/speech-enhancement-models");
    assert_eq!(model.denoiser.name, "gtcrn_simple.onnx");
    assert_eq!(model.asr_tokenizer.dir, "/cache/sherpa-onnx-qwen3-asr-1.7B-int8");
    assert_eq!(model.asr_tokenizer.name, "tokenizer");
    assert_eq!(model.vad.dir, "/cache/vad");
    assert_eq!(model.refiner.dir, "/cache/Qwen3-4B-GGUF");
    assert!(resolver.failed().is_none());
}

#[test]
fn a_failed_download_is_named() {
    let mut resolver = ModelResolver::new();
    assert_eq!(
        resolver.failed().unwrap(),
        "failed to download csukuangfj/speech-enhancement-models"
    );
    resolver.downloaded("/d".into());
    assert_eq!(
        resolver.failed().unwrap(),
        "failed to download solavr/sherpa-onnx-qwen3-asr-1.7B-int8"
    );
    resolver.downloaded("/a".into());
    assert_eq!(resolver.failed().unwrap(), "failed to download csukuangfj/vad");
    resolver.downloaded("/v".into());
    assert_eq!(resolver.failed().unwrap(), "failed to download unsloth/Qwen3-4B-GGUF");
}

fn files(list: &[(&str, u64)]) -> ProgressEvent {
    ProgressEvent::Download(DownloadEvent::Progress {
        files: list
            .iter()
            .map(|(name, bytes)| FileProgress {
                filename: name.to_string(),
                bytes_completed: *bytes,
            })
            .collect(),
    })
}

fn start(total_bytes: u64) -> ProgressEvent {
    ProgressEvent::Download(DownloadEvent::Start { total_bytes })
}

fn complete() -> ProgressEvent {
    ProgressEvent::Download(DownloadEvent::Complete)
}

const NOTHING: BarUpdate = BarUpdate { length: None, position: None, finish: false };

#[test]
fn a_bar_is_only_set_to_more() {
    assert_eq!(set_position(5, 6), Some(6));
    assert_eq!(set_position(5, 5), None);
    assert_eq!(set_position(5, 4), None);
    assert_eq!(set_length(None, 0), Some(0));
    assert_eq!(set_length(Some(5), 6), Some(6));
    assert_eq!(set_length(Some(5), 5), None);
}

#[test]
fn a_file_counts_with_the_most_reported_of_it() {
    let mut progress = PrintProgress::new();
    let bar = Bar { position: 0, length: Some(0) };
    let update = progress.on_progress(&start(100), bar);
    assert_eq!(update, BarUpdate { length: Some(100), ..NOTHING });
    let update = progress.on_progress(&files(&[("a", 10), ("b", 5)]), bar);
    assert_eq!(update, BarUpdate { position: Some(15), ..NOTHING });
    let update = progress.on_progress(&files(&[("a", 4), ("c", 1), ("b", 7)]), bar);
    assert_eq!(update, BarUpdate { position: Some(18), ..NOTHING });
    let behind = Bar { position: 20, length: Some(100) };
    assert_eq!(progress.on_progress(&files(&[("c", 2)]), behind), NOTHING);
    let update = progress.on_progress(&files(&[("c", 4)]), behind);
    assert_eq!(update, BarUpdate { position: Some(21), ..NOTHING });
}

#[test]
fn a_new_start_forgets_the_files() {
    let mut progress = PrintProgress::new();
    let bar = Bar { position: 0, length: Some(50) };
    let _ = progress.on_progress(&files(&[("a", 10)]), bar);
    let update = progress.on_progress(&start(40), bar);
    assert_eq!(update, NOTHING);
    let update = progress.on_progress(&files(&[("b", 3)]), bar);
    assert_eq!(update, BarUpdate { position: Some(3), ..NOTHING });
}

#[test]
fn totals_are_shown_as_they_come() {
    let mut progress = PrintProgress::new();
    let bar = Bar { position: 5, length: None };
    let event = ProgressEvent::Download(DownloadEvent::AggregateProgress {
        bytes_completed: 9,
        total_bytes: 0,
    });
    assert_eq!(
        progress.on_progress(&event, bar),
        BarUpdate { length: Some(0), position: Some(9), finish: false }
    );
    assert_eq!(
        progress.on_progress(&complete(), bar),
        BarUpdate { finish: true, ..NOTHING }
    );
}

#[test]
fn what_cannot_be_counted_is_known() {
    let mut progress = PrintProgress::new();
    let bar = Bar { position: 0, length: None };
    let _ = progress.on_progress(&files(&[("a", u64::MAX)]), bar);
    assert!(!progress.can_count(&files(&[("b", 1)])));
    assert!(progress.can_count(&files(&[("a", 1)])));
    assert!(progress.can_count(&complete()));
}

#[test]
fn a_whole_download_is_counted() {
    let mut progress = PrintProgress::new();
    let mut bar = Bar { position: 0, length: None };
    let events = [
        files(&[("old", 7)]),
        start(100),
        files(&[("a", 10), ("a", 3)]),
        ProgressEvent::Other,
        files(&[("b", 5), ("a", 12)]),
        files(&[("b", 1)]),
    ];
    let mut positions = Vec::new();
    for event in events {
        assert!(progress.can_count(&event));
        let update = progress.on_progress(&event, bar);
        assert!(!update.finish);
        bar = Bar {
            position: update.position.unwrap_or(bar.position),
            length: update.length.or(bar.length),
        };
        positions.push(bar.position);
    }
    assert_eq!(positions, vec![7, 7, 10, 10, 17, 17]);
    assert_eq!(bar.length, Some(100));
}

#[test]
fn other_news_changes_nothing() {
    let mut progress = PrintProgress::new();
    let bar = Bar { position: 3, length: Some(9) };
    let _ = progress.on_progress(&files(&[("a", 4)]), bar);
    assert_eq!(progress.on_progress(&ProgressEvent::Other, bar), NOTHING);
    let update = progress.on_progress(&files(&[("b", 1)]), bar);
    assert_eq!(update, BarUpdate { position: Some(5), ..NOTHING });
}
