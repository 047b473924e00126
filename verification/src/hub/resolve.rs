//! Which files of which model repositories are needed.
//!
//! Downloads run outside of this library, one after the other. A resolver says which is
//! next and is told what came of it, until it can name every model file.
use vstd::prelude::*;

verus! {

/// One download: the files of a repository that match one of the patterns.
pub struct Download {
    pub owner: String,
    pub repo: String,
    pub patterns: Vec<String>,
    /// How many files are fetched at once.
    pub workers: usize,
    /// What the progress is shown under.
    pub label: String,
}

/// The model of a `Download`.
pub struct DownloadView {
    pub owner: Seq<char>,
    pub repo: Seq<char>,
    pub patterns: Seq<Seq<char>>,
    pub workers: nat,
    pub label: Seq<char>,
}

impl View for Download {
    type V = DownloadView;

    open spec fn view(&self) -> DownloadView {
        DownloadView {
            owner: self.owner@,
            repo: self.repo@,
            patterns: crate::text::texts(self.patterns@),
            workers: self.workers as nat,
            label: self.label@,
        }
    }
}

/// How many downloads there are.
pub const DOWNLOADS: usize = 4;

/// The downloads in their order: the denoiser, the recogniser, the voice activity detector,
/// the refiner.
pub open spec fn download(i: int) -> DownloadView {
    if i == 0 {
        DownloadView {
            owner: "csukuangfj"@,
            repo: "speech-enhancement-models"@,
            patterns: seq!["gtcrn_simple.onnx"@],
            workers: 1,
            label: "gtcrn"@,
        }
    } else if i == 1 {
        DownloadView {
            owner: "solavr"@,
            repo: "sherpa-onnx-qwen3-asr-1.7B-int8"@,
            patterns: seq![
                "conv_frontend.onnx"@,
                "encoder.int8.onnx"@,
                "decoder.int8.onnx"@,
                "decoder.int8.onnx.data"@,
                "tokenizer/*"@,
            ],
            workers: 3,
            label: "qwen3-asr-1.7B"@,
        }
    } else if i == 2 {
        DownloadView {
            owner: "csukuangfj"@,
            repo: "vad"@,
            patterns: seq!["silero_vad_v5.onnx"@],
            workers: 3,
            label: "silero-vad-v5"@,
        }
    } else {
        DownloadView {
            owner: "unsloth"@,
            repo: "Qwen3-4B-GGUF"@,
            patterns: seq!["Qwen3-4B-Q4_K_M.gguf"@],
            workers: 1,
            label: "qwen3-4b-gguf"@,
        }
    }
}

/// A file, or a directory, inside a downloaded repository.
pub struct ModelPath {
    /// Where the repository was downloaded to.
    pub dir: String,
    /// What it is called there.
    pub name: String,
}

impl View for ModelPath {
    type V = (Seq<char>, Seq<char>);

    open spec fn view(&self) -> (Seq<char>, Seq<char>) {
        (self.dir@, self.name@)
    }
}

/// The files of all models.
pub struct Model {
    pub denoiser: ModelPath,
    pub asr_conv_frontend: ModelPath,
    pub asr_encoder: ModelPath,
    pub asr_decoder: ModelPath,
    pub asr_tokenizer: ModelPath,
    pub vad: ModelPath,
    pub refiner: ModelPath,
}

/// Whether `m` names the files of the models, where the downloads went to `dirs`.
pub open spec fn names_files(m: Model, dirs: Seq<Seq<char>>) -> bool {
    &&& dirs.len() == DOWNLOADS
    &&& m.denoiser@ == (dirs[0], "gtcrn_simple.onnx"@)
    &&& m.asr_conv_frontend@ == (dirs[1], "conv_frontend.onnx"@)
    &&& m.asr_encoder@ == (dirs[1], "encoder.int8.onnx"@)
    &&& m.asr_decoder@ == (dirs[1], "decoder.int8.onnx"@)
    &&& m.asr_tokenizer@ == (dirs[1], "tokenizer"@)
    &&& m.vad@ == (dirs[2], "silero_vad_v5.onnx"@)
    &&& m.refiner@ == (dirs[3], "Qwen3-4B-Q4_K_M.gguf"@)
}

/// Whether the download to one of `dirs` asks for `file`, and `file` lies in that very
/// directory; of a directory, for everything inside of it.
pub open spec fn is_downloaded(
    file: (Seq<char>, Seq<char>),
    dirs: Seq<Seq<char>>,
    i: int,
    directory: bool,
) -> bool {
    &&& 0 <= i < dirs.len()
    &&& file.0 == dirs[i]
    &&& download(i).patterns.contains(
        if directory {
            file.1 + "/*"@
        } else {
            file.1
        },
    )
}

/// Every model file lies in the directory of the download that asks for it: that of the
/// denoiser, of the recogniser, of the voice activity detector, of the refiner. The tokenizer
/// is a directory, whose contents its download asks for. The files of the recogniser are each
/// the one that its part is for.
pub proof fn lemma_model_files_are_downloaded(m: Model, dirs: Seq<Seq<char>>)
    requires
        names_files(m, dirs),
    ensures
        is_downloaded(m.denoiser@, dirs, 0, false),
        is_downloaded(m.asr_conv_frontend@, dirs, 1, false),
        is_downloaded(m.asr_encoder@, dirs, 1, false),
        is_downloaded(m.asr_decoder@, dirs, 1, false),
        is_downloaded(m.asr_tokenizer@, dirs, 1, true),
        is_downloaded(m.vad@, dirs, 2, false),
        is_downloaded(m.refiner@, dirs, 3, false),
        m.asr_conv_frontend@.1 == "conv_frontend.onnx"@,
        m.asr_encoder@.1 == "encoder.int8.onnx"@,
        m.asr_decoder@.1 == "decoder.int8.onnx"@,
{
    assert("tokenizer"@ + "/*"@ =~= "tokenizer/*"@) by {
        reveal_strlit("tokenizer");
        reveal_strlit("/*");
        reveal_strlit("tokenizer/*");
    }
    assert(download(0).patterns[0] == m.denoiser@.1);
    assert(download(1).patterns[0] == m.asr_conv_frontend@.1);
    assert(download(1).patterns[1] == m.asr_encoder@.1);
    assert(download(1).patterns[2] == m.asr_decoder@.1);
    assert(download(1).patterns[4] == m.asr_tokenizer@.1 + "/*"@);
    assert(download(2).patterns[0] == m.vad@.1);
    assert(download(3).patterns[0] == m.refiner@.1);
}

/// Each repository is asked for its own files, and a failure names it: the four are those of
/// the denoiser, the recogniser, the voice activity detector and the refiner.
pub proof fn lemma_repositories(i: int)
    requires
        0 <= i < DOWNLOADS,
    ensures
        (download(i).owner, download(i).repo) == seq![
            ("csukuangfj"@, "speech-enhancement-models"@),
            ("solavr"@, "sherpa-onnx-qwen3-asr-1.7B-int8"@),
            ("csukuangfj"@, "vad"@),
            ("unsloth"@, "Qwen3-4B-GGUF"@),
        ][i],
        failure(i).take("failed to download "@.len() as int) == "failed to download "@,
        failure(i).skip("failed to download "@.len() as int) == download(i).owner + "/"@ + download(
            i,
        ).repo,
{
    let repos = seq![
        ("csukuangfj"@, "speech-enhancement-models"@),
        ("solavr"@, "sherpa-onnx-qwen3-asr-1.7B-int8"@),
        ("csukuangfj"@, "vad"@),
        ("unsloth"@, "Qwen3-4B-GGUF"@),
    ];
    assert(repos[0].0 == "csukuangfj"@ && repos[1].0 == "solavr"@ && repos[2].0 == "csukuangfj"@
        && repos[3].0 == "unsloth"@);
    let head = "failed to download "@;
    assert(failure(i).take(head.len() as int) =~= head);
    assert(failure(i).skip(head.len() as int) =~= download(i).owner + "/"@ + download(i).repo);
}

fn one_file(owner: &str, repo: &str, file: &str, workers: usize, label: &str) -> (r: Download)
    ensures
        r@ == (DownloadView {
            owner: owner@,
            repo: repo@,
            patterns: seq![file@],
            workers: workers as nat,
            label: label@,
        }),
{
    let mut patterns: Vec<String> = Vec::new();
    patterns.push(file.to_owned());
    assert(crate::text::texts(patterns@) == seq![file@]);
    Download {
        owner: owner.to_owned(),
        repo: repo.to_owned(),
        patterns,
        workers,
        label: label.to_owned(),
    }
}

fn recognizer_download() -> (r: Download)
    ensures
        r@ == download(1),
{
    let mut patterns: Vec<String> = Vec::new();
    patterns.push("conv_frontend.onnx".to_owned());
    patterns.push("encoder.int8.onnx".to_owned());
    patterns.push("decoder.int8.onnx".to_owned());
    patterns.push("decoder.int8.onnx.data".to_owned());
    patterns.push("tokenizer/*".to_owned());
    assert(crate::text::texts(patterns@) == download(1).patterns);
    Download {
        owner: "solavr".to_owned(),
        repo: "sherpa-onnx-qwen3-asr-1.7B-int8".to_owned(),
        patterns,
        workers: 3,
        label: "qwen3-asr-1.7B".to_owned(),
    }
}

fn model_path(dir: &String, name: &str) -> (r: ModelPath)
    ensures
        r@ == (dir@, name@),
{
    ModelPath { dir: dir.clone(), name: name.to_owned() }
}

/// What is said where download `i` failed.
pub open spec fn failure(i: int) -> Seq<char> {
    "failed to download "@ + download(i).owner + "/"@ + download(i).repo
}

/// How far the downloads are.
pub struct ModelResolver {
    dirs: Vec<String>,
}

impl View for ModelResolver {
    /// Where the downloads that are done went to.
    type V = Seq<Seq<char>>;

    closed spec fn view(&self) -> Seq<Seq<char>> {
        crate::text::texts(self.dirs@)
    }
}

impl ModelResolver {
    /// Nothing is downloaded at first.
    pub fn new() -> (r: ModelResolver)
        ensures
            r@ == Seq::<Seq<char>>::empty(),
    {
        let r = ModelResolver { dirs: Vec::new() };
        assert(r@ == Seq::<Seq<char>>::empty());
        r
    }

    /// The next download; `None` where all are done.
    pub fn next(&self) -> (r: Option<Download>)
        ensures
            match r {
                Some(d) => self@.len() < DOWNLOADS && d@ == download(self@.len() as int),
                None => self@.len() >= DOWNLOADS,
            },
    {
        let done: usize = self.dirs.len();
        if done == 0 {
            Some(
                one_file(
                    "csukuangfj",
                    "speech-enhancement-models",
                    "gtcrn_simple.onnx",
                    1,
                    "gtcrn",
                ),
            )
        } else if done == 1 {
            Some(recognizer_download())
        } else if done == 2 {
            Some(one_file("csukuangfj", "vad", "silero_vad_v5.onnx", 3, "silero-vad-v5"))
        } else if done == 3 {
            Some(one_file("unsloth", "Qwen3-4B-GGUF", "Qwen3-4B-Q4_K_M.gguf", 1, "qwen3-4b-gguf"))
        } else {
            None
        }
    }

    /// Takes note of where a download went to.
    pub fn downloaded(&mut self, dir: String)
        ensures
            final(self)@ == old(self)@.push(dir@),
    {
        let ghost before = self.dirs@;
        self.dirs.push(dir);
        assert(crate::text::texts(self.dirs@) == crate::text::texts(before).push(dir@));
    }

    /// What is said where the next download failed; `None` where all are done.
    pub fn failed(&self) -> (r: Option<String>)
        ensures
            match r {
                Some(message) => self@.len() < DOWNLOADS && message@ == failure(
                    self@.len() as int,
                ),
                None => self@.len() >= DOWNLOADS,
            },
    {
        match self.next() {
            Some(d) => {
                let mut message = "failed to download ".to_owned();
                message.append(d.owner.as_str());
                message.append("/");
                message.append(d.repo.as_str());
                Some(message)
            },
            None => None,
        }
    }

    /// The model files, once all downloads are done.
    pub fn model(&self) -> (r: Option<Model>)
        ensures
            match r {
                Some(m) => names_files(m, self@),
                None => self@.len() != DOWNLOADS,
            },
    {
        if self.dirs.len() != DOWNLOADS {
            return None;
        }
        let asr = &self.dirs[1];
        Some(
            Model {
                denoiser: model_path(&self.dirs[0], "gtcrn_simple.onnx"),
                asr_conv_frontend: model_path(asr, "conv_frontend.onnx"),
                asr_encoder: model_path(asr, "encoder.int8.onnx"),
                asr_decoder: model_path(asr, "decoder.int8.onnx"),
                asr_tokenizer: model_path(asr, "tokenizer"),
                vad: model_path(&self.dirs[2], "silero_vad_v5.onnx"),
                refiner: model_path(&self.dirs[3], "Qwen3-4B-Q4_K_M.gguf"),
            },
        )
    }
}

} // verus!
