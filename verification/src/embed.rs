//! Local text embeddings: where the model comes from, how its directory is
//! found and checked, and the errors that say what is missing.
//!
//! A vector model is optional: "not configured" is a state of its own
//! (`EmbedError::NotConfigured`), kept apart from "configured but not
//! ready" (`EmbedErrorKind::ModelNotReady`). Nothing here falls back to
//! lexical matching.
//!
//! The file system is the caller's part: it reports which candidate
//! directories and files exist, and the functions here decide.
use vstd::prelude::*;

pub mod download;
pub mod inference;
pub mod runtime;

use crate::config::{trim_bounds, trimmed};
use crate::path_util::{join_path, path_join, paths_equal, same_path};
use crate::text::{append_str, chars_of, decimal, join_strings, join_with, push_decimal, slice_to_vec, string_of, string_views};

verus! {

/// The default model: the directory name under the models root.
pub const DEFAULT_MODEL_NAME: &'static str = "paraphrase-multilingual-MiniLM-L12-v2";

/// The repository the model files come from.
pub const MODEL_REPO: &'static str = "Xenova/paraphrase-multilingual-MiniLM-L12-v2";

/// The files a model directory must hold.
pub open spec fn required_names() -> Seq<Seq<char>> {
    seq!["model.onnx"@, "tokenizer.json"@]
}

/// The files a model directory must hold (see `required_names`).
pub fn required_files() -> (r: Vec<String>)
    ensures
        string_views(r@) == required_names(),
{
    let mut r: Vec<String> = Vec::new();
    r.push("model.onnx".to_string());
    r.push("tokenizer.json".to_string());
    proof {
        assert(string_views(r@) =~= required_names());
    }
    r
}

/// Everything that can go wrong while embedding.
#[derive(Debug)]
pub enum EmbedError {
    /// No vector model is configured: the capability is off, nothing failed.
    NotConfigured,
    /// A model is configured but its directory is not there.
    ModelDirMissing {
        /// The expected directory (the first one searched).
        dir: String,
        /// Every path searched, one per line.
        searched: String,
        /// How to get the model.
        how_to_get: String,
    },
    /// The model directory lacks files.
    ModelIncomplete {
        /// The model directory.
        dir: String,
        /// The missing file names, comma separated.
        missing: String,
        /// How to get the model.
        how_to_get: String,
    },
    /// The ONNX Runtime library cannot be used.
    RuntimeUnavailable {
        /// What was found and what failed.
        detail: String,
        /// How to fix it.
        hint: String,
    },
    /// Loading the ONNX model failed.
    Session(String),
    /// Loading the tokenizer failed.
    Tokenizer(String),
    /// Tokenizing failed.
    Tokenize(String),
    /// Inference failed.
    Inference(String),
    /// The model's output has an unexpected shape.
    BadOutput(String),
}

/// The broad class of an error; callers word each class differently.
#[derive(Debug, Clone, Copy, PartialEq, Eq, Structural)]
pub enum EmbedErrorKind {
    /// The capability is off; a normal state.
    NotConfigured,
    /// Configured, but the model directory or files are missing.
    ModelNotReady,
    /// The runtime failed (library, loading, inference).
    Runtime,
}

/// The class of an error.
pub open spec fn error_kind(e: EmbedError) -> EmbedErrorKind {
    match e {
        EmbedError::NotConfigured => EmbedErrorKind::NotConfigured,
        EmbedError::ModelDirMissing { .. } => EmbedErrorKind::ModelNotReady,
        EmbedError::ModelIncomplete { .. } => EmbedErrorKind::ModelNotReady,
        _ => EmbedErrorKind::Runtime,
    }
}

/// What an error says to the user, one text per kind of error.
pub open spec fn error_message(e: EmbedError) -> Seq<char> {
    match e {
        EmbedError::NotConfigured => "未配置向量模型：语义检索处于关闭状态（用户未开启该能力，这不是故障）"@,
        EmbedError::ModelDirMissing { dir, searched, how_to_get } => "向量模型未就绪：找不到模型目录 "@ + dir@ + "\n已搜索：\n"@
            + searched@ + "\n"@ + how_to_get@,
        EmbedError::ModelIncomplete { dir, missing, how_to_get } => "嵌入模型不完整："@ + dir@ + " 下缺少 "@ + missing@ + "\n"@
            + how_to_get@,
        EmbedError::RuntimeUnavailable { detail, hint } => "ONNX Runtime 动态库不可用（"@ + detail@ + "）\n"@ + hint@,
        EmbedError::Session(s) => "载入 ONNX 模型失败："@ + s@,
        EmbedError::Tokenizer(s) => "载入分词器失败："@ + s@,
        EmbedError::Tokenize(s) => "分词失败："@ + s@,
        EmbedError::Inference(s) => "推理失败："@ + s@,
        EmbedError::BadOutput(s) => "模型输出形状异常："@ + s@,
    }
}

impl EmbedError {
    /// What this error says to the user (see `error_message`).
    pub fn message(&self) -> (m: String)
        ensures
            m@ == error_message(*self),
    {
        let mut buf: Vec<char> = Vec::new();
        match self {
            EmbedError::NotConfigured => {
                append_str(&mut buf, "未配置向量模型：语义检索处于关闭状态（用户未开启该能力，这不是故障）");
            },
            EmbedError::ModelDirMissing { dir, searched, how_to_get } => {
                append_str(&mut buf, "向量模型未就绪：找不到模型目录 ");
                append_str(&mut buf, dir.as_str());
                append_str(&mut buf, "\n已搜索：\n");
                append_str(&mut buf, searched.as_str());
                append_str(&mut buf, "\n");
                append_str(&mut buf, how_to_get.as_str());
            },
            EmbedError::ModelIncomplete { dir, missing, how_to_get } => {
                append_str(&mut buf, "嵌入模型不完整：");
                append_str(&mut buf, dir.as_str());
                append_str(&mut buf, " 下缺少 ");
                append_str(&mut buf, missing.as_str());
                append_str(&mut buf, "\n");
                append_str(&mut buf, how_to_get.as_str());
            },
            EmbedError::RuntimeUnavailable { detail, hint } => {
                append_str(&mut buf, "ONNX Runtime 动态库不可用（");
                append_str(&mut buf, detail.as_str());
                append_str(&mut buf, "）\n");
                append_str(&mut buf, hint.as_str());
            },
            EmbedError::Session(s) => {
                append_str(&mut buf, "载入 ONNX 模型失败：");
                append_str(&mut buf, s.as_str());
            },
            EmbedError::Tokenizer(s) => {
                append_str(&mut buf, "载入分词器失败：");
                append_str(&mut buf, s.as_str());
            },
            EmbedError::Tokenize(s) => {
                append_str(&mut buf, "分词失败：");
                append_str(&mut buf, s.as_str());
            },
            EmbedError::Inference(s) => {
                append_str(&mut buf, "推理失败：");
                append_str(&mut buf, s.as_str());
            },
            EmbedError::BadOutput(s) => {
                append_str(&mut buf, "模型输出形状异常：");
                append_str(&mut buf, s.as_str());
            },
        }
        string_of(buf.as_slice())
    }
}

impl EmbedError {
    /// The class of this error (see `error_kind`).
    pub fn kind(&self) -> (k: EmbedErrorKind)
        ensures
            k == error_kind(*self),
    {
        match self {
            EmbedError::NotConfigured => EmbedErrorKind::NotConfigured,
            EmbedError::ModelDirMissing { .. } => EmbedErrorKind::ModelNotReady,
            EmbedError::ModelIncomplete { .. } => EmbedErrorKind::ModelNotReady,
            _ => EmbedErrorKind::Runtime,
        }
    }

    /// Whether this is "not configured" (the capability is off).
    pub fn is_not_configured(&self) -> (b: bool)
        ensures
            b == (*self is NotConfigured),
    {
        matches!(self, EmbedError::NotConfigured)
    }
}

/// The directory of model `name` under `root`.
pub fn model_dir(root: &str, name: &str) -> (r: String)
    ensures
        r@ == path_join(root@, name@),
{
    join_path(root, name)
}

/// The directory of the default model under `root`.
pub fn default_model_dir(root: &str) -> (r: String)
    ensures
        r@ == path_join(root@, DEFAULT_MODEL_NAME@),
{
    model_dir(root, DEFAULT_MODEL_NAME)
}

/// Where to look for model `name`: `<root>/<name>`, then `name` as a path
/// of its own unless it is the same path.
pub open spec fn candidate_dirs(root: Seq<char>, name: Seq<char>) -> Seq<Seq<char>> {
    let first = path_join(root, name);
    if same_path(name, first) {
        seq![first]
    } else {
        seq![first, name]
    }
}

/// Where to look for model `name` (see `candidate_dirs`).
pub fn model_dir_candidates(root: &str, name: &str) -> (r: Vec<String>)
    ensures
        string_views(r@) == candidate_dirs(root@, name@),
{
    let first = join_path(root, name);
    let same = paths_equal(name, first.as_str());
    let mut r: Vec<String> = Vec::new();
    r.push(first);
    if !same {
        r.push(name.to_string());
    }
    proof {
        assert(string_views(r@) =~= candidate_dirs(root@, name@));
    }
    r
}

/// The searched paths, one per line, each indented by two spaces.
pub open spec fn searched_text(paths: Seq<Seq<char>>) -> Seq<char> {
    join_with(paths.map_values(|p: Seq<char>| "  "@ + p), "\n"@)
}

/// Lists searched paths (see `searched_text`).
pub fn render_searched(paths: &[String]) -> (r: String)
    ensures
        r@ == searched_text(string_views(paths@)),
{
    let mut lines: Vec<String> = Vec::new();
    let mut i: usize = 0;
    while i < paths.len()
        invariant
            i <= paths.len(),
            lines.len() == i,
            forall|j: int| 0 <= j < i ==> (#[trigger] lines@[j])@ == "  "@ + paths@[j]@,
        decreases paths.len() - i,
    {
        let mut buf: Vec<char> = Vec::new();
        append_str(&mut buf, "  ");
        append_str(&mut buf, paths[i].as_str());
        lines.push(string_of(buf.as_slice()));
        i = i + 1;
    }
    proof {
        assert(string_views(lines@) =~= string_views(paths@).map_values(|p: Seq<char>| "  "@ + p));
    }
    join_strings(lines.as_slice(), "\n")
}

/// How to get the model, for a model expected in `dir` under `root`.
pub open spec fn how_to_get_text(dir: Seq<char>, root: Seq<char>) -> Seq<char> {
    "获取方式（任选其一）：\n1) 运行内置下载器（约 130 MB）：\n\x20  cargo run -p codeconnect-embed --features downloader --bin download-model -- --root \""@
        + root
        + "\"\n\x20  会落到 "@
        + path_join(root, DEFAULT_MODEL_NAME@)
        + "（若不是下面这个目录，请把下载好的文件搬过去）\n2) 手动从 HuggingFace 仓库 "@
        + MODEL_REPO@
        + " 下载 onnx/model_quantized.onnx 与 tokenizer.json，\n\x20  放进 "@
        + dir
        + "，分别命名为 model.onnx / tokenizer.json\n\x20  （若该模型需 mean 池化，另放 embed-config.json：{\"pooling\":\"mean\"}）"@
}

/// How to get the model (see `how_to_get_text`); part of every "model
/// not ready" error, so that each can be acted on.
pub fn how_to_get(model_dir: &str, root: &str) -> (r: String)
    ensures
        r@ == how_to_get_text(model_dir@, root@),
{
    let default_dir = join_path(root, DEFAULT_MODEL_NAME);
    let mut buf: Vec<char> = Vec::new();
    append_str(&mut buf, "获取方式（任选其一）：\n1) 运行内置下载器（约 130 MB）：\n\x20  cargo run -p codeconnect-embed --features downloader --bin download-model -- --root \"");
    append_str(&mut buf, root);
    append_str(&mut buf, "\"\n\x20  会落到 ");
    append_str(&mut buf, default_dir.as_str());
    append_str(&mut buf, "（若不是下面这个目录，请把下载好的文件搬过去）\n2) 手动从 HuggingFace 仓库 ");
    append_str(&mut buf, MODEL_REPO);
    append_str(&mut buf, " 下载 onnx/model_quantized.onnx 与 tokenizer.json，\n\x20  放进 ");
    append_str(&mut buf, model_dir);
    append_str(&mut buf, "，分别命名为 model.onnx / tokenizer.json\n\x20  （若该模型需 mean 池化，另放 embed-config.json：{\"pooling\":\"mean\"}）");
    string_of(buf.as_slice())
}

/// The error for a model directory that is not there.
pub open spec fn dir_missing(dir: Seq<char>, searched: Seq<Seq<char>>, root: Seq<char>, e: EmbedError) -> bool {
    e matches EmbedError::ModelDirMissing { dir: d, searched: s, how_to_get: h }
        && d@ == dir && s@ == searched_text(searched) && h@ == how_to_get_text(dir, root)
}

/// The first candidate that is a directory.
pub open spec fn first_present(present: Seq<bool>) -> Option<int>
    decreases present.len(),
{
    if present.len() == 0 {
        None
    } else if present[0] {
        Some(0)
    } else {
        match first_present(present.drop_first()) {
            Some(k) => Some(k + 1),
            None => None,
        }
    }
}

/// Resolves model `name` under `root`. `dirs_present[i]` tells whether the
/// `i`-th of `model_dir_candidates(root, name)` is a directory: the first
/// that is wins; when none is, the error lists every path searched.
pub fn resolve_model_dir(root: &str, name: &str, dirs_present: &[bool]) -> (r: Result<String, EmbedError>)
    requires
        dirs_present.len() == candidate_dirs(root@, name@).len(),
    ensures
        match first_present(dirs_present@) {
            Some(k) => (r matches Ok(d) && d@ == candidate_dirs(root@, name@)[k]),
            None => (r matches Err(e) && dir_missing(candidate_dirs(root@, name@)[0], candidate_dirs(root@, name@), root@, e)),
        },
{
    let candidates = model_dir_candidates(root, name);
    let mut i: usize = 0;
    proof {
        assert(dirs_present@.skip(0) =~= dirs_present@);
    }
    while i < candidates.len()
        invariant
            i <= candidates.len(),
            candidates.len() == dirs_present.len(),
            string_views(candidates@) == candidate_dirs(root@, name@),
            forall|j: int| 0 <= j < i ==> !(#[trigger] dirs_present@[j]),
            first_present(dirs_present@) == (match first_present(dirs_present@.skip(i as int)) {
                Some(m) => Some(m + i),
                None => None,
            }),
        decreases candidates.len() - i,
    {
        proof {
            assert(dirs_present@.skip(i as int).drop_first() =~= dirs_present@.skip(i + 1));
            assert(dirs_present@.skip(i as int)[0] == dirs_present@[i as int]);
        }
        if dirs_present[i] {
            let d = candidates[i].clone();
            proof {
                assert(string_views(candidates@)[i as int] == candidates@[i as int]@);
            }
            return Ok(d);
        }
        i = i + 1;
    }
    proof {
        assert(dirs_present@.skip(i as int) =~= Seq::<bool>::empty());
        assert(string_views(candidates@)[0] == candidates@[0]@);
    }
    let searched = render_searched(candidates.as_slice());
    let how = how_to_get(candidates[0].as_str(), root);
    Err(EmbedError::ModelDirMissing { dir: candidates[0].clone(), searched, how_to_get: how })
}

/// The names of the required files that are absent, in order.
pub open spec fn missing_names(present: Seq<bool>) -> Seq<Seq<char>>
    decreases present.len(),
{
    if present.len() == 0 {
        Seq::empty()
    } else {
        let prev = missing_names(present.drop_last());
        if present.last() { prev } else { prev.push(required_names()[present.len() - 1]) }
    }
}

/// Checks that `model_dir` holds the required files. `dir_present` tells
/// whether it is a directory and `files_present[i]` whether the `i`-th of
/// `required_files()` is a file in it.
pub fn ensure_model_files(model_dir: &str, root: &str, dir_present: bool, files_present: &[bool]) -> (r: Result<(), EmbedError>)
    requires
        files_present.len() == required_names().len(),
    ensures
        !dir_present ==> (r matches Err(e) && dir_missing(model_dir@, seq![model_dir@], root@, e)),
        dir_present && missing_names(files_present@).len() > 0 ==> (r matches Err(e)
            && e matches EmbedError::ModelIncomplete { dir: d, missing: m, how_to_get: h }
            && d@ == model_dir@
            && m@ == join_with(missing_names(files_present@), ", "@)
            && h@ == how_to_get_text(model_dir@, root@)),
        dir_present && missing_names(files_present@).len() == 0 ==> r is Ok,
{
    if !dir_present {
        let mut one: Vec<String> = Vec::new();
        one.push(model_dir.to_string());
        proof {
            assert(string_views(one@) =~= seq![model_dir@]);
        }
        let searched = render_searched(one.as_slice());
        return Err(EmbedError::ModelDirMissing {
            dir: model_dir.to_string(),
            searched,
            how_to_get: how_to_get(model_dir, root),
        });
    }
    let names = required_files();
    let mut missing: Vec<String> = Vec::new();
    let mut i: usize = 0;
    while i < files_present.len()
        invariant
            i <= files_present.len(),
            files_present.len() == required_names().len(),
            string_views(names@) == required_names(),
            string_views(missing@) == missing_names(files_present@.take(i as int)),
        decreases files_present.len() - i,
    {
        proof {
            assert(files_present@.take(i + 1).drop_last() =~= files_present@.take(i as int));
            assert(files_present@.take(i + 1).last() == files_present@[i as int]);
            assert(string_views(names@)[i as int] == names@[i as int]@);
        }
        if !files_present[i] {
            let ghost before = string_views(missing@);
            missing.push(names[i].clone());
            proof {
                assert(string_views(missing@) =~= before.push(names@[i as int]@));
            }
        }
        i = i + 1;
    }
    proof {
        assert(files_present@.take(i as int) =~= files_present@);
    }
    if missing.len() > 0 {
        return Err(EmbedError::ModelIncomplete {
            dir: model_dir.to_string(),
            missing: join_strings(missing.as_slice(), ", "),
            how_to_get: how_to_get(model_dir, root),
        });
    }
    proof {
        assert(string_views(missing@).len() == 0);
    }
    Ok(())
}

/// Where a vector model comes from, as configured.
#[derive(Debug, Clone, PartialEq, Eq)]
pub enum ModelSource {
    /// No model configured: semantic search is off (the default).
    NotConfigured,
    /// A model name, resolved under a models root.
    Named(String),
    /// A model directory given as a path.
    Dir(String),
}

impl ModelSource {
    /// Reads the configured value: nothing or blank text is "not
    /// configured"; trimmed text naming an existing directory (`is_dir`,
    /// as the caller found it) is a directory; anything else is a model
    /// name.
    pub fn from_config(value: Option<&str>, is_dir: bool) -> (r: ModelSource)
        ensures
            match value {
                None => r is NotConfigured,
                Some(v) => if trimmed(v@).len() == 0 {
                    r is NotConfigured
                } else if is_dir {
                    r matches ModelSource::Dir(d) && d@ == trimmed(v@)
                } else {
                    r matches ModelSource::Named(n) && n@ == trimmed(v@)
                },
            },
    {
        match value {
            None => ModelSource::NotConfigured,
            Some(v) => {
                let s = chars_of(v);
                let (a, b) = trim_bounds(s.as_slice());
                if a == b {
                    return ModelSource::NotConfigured;
                }
                let t = string_of(slice_to_vec(s.as_slice(), a, b).as_slice());
                if is_dir {
                    ModelSource::Dir(t)
                } else {
                    ModelSource::Named(t)
                }
            },
        }
    }

    /// Whether a model is configured.
    pub fn is_configured(&self) -> (b: bool)
        ensures
            b == !(*self is NotConfigured),
    {
        !matches!(self, ModelSource::NotConfigured)
    }

    /// The model directory: "not configured" is an error of its own, a name
    /// is resolved under `root` (`dirs_present` as for `resolve_model_dir`),
    /// a directory is taken as it is.
    pub fn resolve(&self, root: &str, dirs_present: &[bool]) -> (r: Result<String, EmbedError>)
        requires
            self matches ModelSource::Named(n) ==> dirs_present.len() == candidate_dirs(root@, n@).len(),
        ensures
            *self is NotConfigured ==> (r matches Err(e) && e is NotConfigured),
            self matches ModelSource::Dir(d) ==> (r matches Ok(p) && p@ == d@),
            self matches ModelSource::Named(n) ==> match first_present(dirs_present@) {
                Some(k) => (r matches Ok(d) && d@ == candidate_dirs(root@, n@)[k]),
                None => (r matches Err(e) && dir_missing(candidate_dirs(root@, n@)[0], candidate_dirs(root@, n@), root@, e)),
            },
    {
        match self {
            ModelSource::NotConfigured => Err(EmbedError::NotConfigured),
            ModelSource::Named(name) => resolve_model_dir(root, name.as_str(), dirs_present),
            ModelSource::Dir(dir) => Ok(dir.clone()),
        }
    }

    /// What the configuration says, for echoing back.
    pub fn describe(&self) -> (r: String)
        ensures
            *self is NotConfigured ==> r@ == "未配置"@,
            self matches ModelSource::Named(n) ==> r@ == n@,
            self matches ModelSource::Dir(d) ==> r@ == d@,
    {
        match self {
            ModelSource::NotConfigured => "未配置".to_string(),
            ModelSource::Named(n) => n.clone(),
            ModelSource::Dir(p) => p.clone(),
        }
    }
}

/// How per-token outputs are pooled into one vector.
#[derive(Debug, Clone, Copy, PartialEq, Eq, Structural)]
pub enum Pooling {
    /// The first token (`[CLS]`).
    Cls,
    /// The mean over the tokens the attention mask keeps.
    Mean,
}

impl Pooling {
    /// The pooling of a model directory: `embed-config.json`'s choice first,
    /// then the sentence-transformers pooling config, else `Cls`.
    pub fn resolve(embed_config: Option<Pooling>, st_config: Option<Pooling>) -> (p: Pooling)
        ensures
            p == (match embed_config {
                Some(q) => q,
                None => match st_config {
                    Some(q) => q,
                    None => Pooling::Cls,
                },
            }),
    {
        match embed_config {
            Some(q) => q,
            None => match st_config {
                Some(q) => q,
                None => Pooling::Cls,
            },
        }
    }

    /// The pooling a name in `embed-config.json` stands for: `mean` or
    /// `cls`.
    pub fn from_name(name: &str) -> (p: Option<Pooling>)
        ensures
            name@ == "mean"@ ==> p == Some(Pooling::Mean),
            name@ == "cls"@ ==> p == Some(Pooling::Cls),
            name@ != "mean"@ && name@ != "cls"@ ==> p is None,
    {
        proof {
            reveal_strlit("mean");
            reveal_strlit("cls");
            assert("mean"@ != "cls"@) by {
                assert("mean"@.len() != "cls"@.len());
            }
        }
        let s = chars_of(name);
        let mean = chars_of("mean");
        let cls = chars_of("cls");
        if crate::text::chars_eq(s.as_slice(), mean.as_slice()) {
            Some(Pooling::Mean)
        } else if crate::text::chars_eq(s.as_slice(), cls.as_slice()) {
            Some(Pooling::Cls)
        } else {
            None
        }
    }

    /// The pooling of a sentence-transformers config from its two flags
    /// (`pooling_mode_mean_tokens`, `pooling_mode_cls_token`): mean wins.
    pub fn from_flags(mean_tokens: bool, cls_token: bool) -> (p: Option<Pooling>)
        ensures
            p == (if mean_tokens { Some(Pooling::Mean) } else if cls_token { Some(Pooling::Cls) } else { None }),
    {
        if mean_tokens {
            Some(Pooling::Mean)
        } else if cls_token {
            Some(Pooling::Cls)
        } else {
            None
        }
    }
}

/// How to provide the ONNX Runtime library `dylib_name`, whose minor API
/// version must be at least `api_minor`.
pub open spec fn runtime_hint_text(dylib_name: Seq<char>, api_minor: nat) -> Seq<char> {
    "请准备 ONNX Runtime 动态库（"@ + dylib_name + "，次版本须 >= "@ + decimal(api_minor)
        + "），任选一种放置方式：\n\x20 1) 放到 codeconnect 可执行文件同目录或 PATH 上；\n\x20 2) 用环境变量指定绝对路径：\n\x20      PowerShell: $env:ORT_DYLIB_PATH = '<...>\\"@
        + dylib_name + "'\n\x20      也可用 CODECONNECT_ORT_DYLIB。"@
}

/// How to fix a missing runtime (see `runtime_hint_text`).
pub fn runtime_hint(dylib_name: &str, api_minor: u32) -> (r: String)
    ensures
        r@ == runtime_hint_text(dylib_name@, api_minor as nat),
{
    let mut buf: Vec<char> = Vec::new();
    append_str(&mut buf, "请准备 ONNX Runtime 动态库（");
    append_str(&mut buf, dylib_name);
    append_str(&mut buf, "，次版本须 >= ");
    push_decimal(api_minor as u64, &mut buf);
    append_str(&mut buf, "），任选一种放置方式：\n\x20 1) 放到 codeconnect 可执行文件同目录或 PATH 上；\n\x20 2) 用环境变量指定绝对路径：\n\x20      PowerShell: $env:ORT_DYLIB_PATH = '<...>\\");
    append_str(&mut buf, dylib_name);
    append_str(&mut buf, "'\n\x20      也可用 CODECONNECT_ORT_DYLIB。");
    string_of(buf.as_slice())
}

/// A configured runtime path: kept when it is a file (`is_file`, as the
/// caller found it); otherwise the reason, naming where the path came from.
pub fn existing(path: &str, source: &str, dylib_name: &str, is_file: bool) -> (r: Result<String, String>)
    ensures
        is_file ==> (r matches Ok(p) && p@ == path@),
        !is_file ==> (r matches Err(m) && m@ == source@ + " 指向的 "@ + dylib_name@ + " 不存在："@ + path@),
{
    if is_file {
        return Ok(path.to_string());
    }
    let mut buf: Vec<char> = Vec::new();
    append_str(&mut buf, source);
    append_str(&mut buf, " 指向的 ");
    append_str(&mut buf, dylib_name);
    append_str(&mut buf, " 不存在：");
    append_str(&mut buf, path);
    Err(string_of(buf.as_slice()))
}

} // verus!
