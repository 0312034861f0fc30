//! Fetching the default model into a models root, shared by all projects:
//! which files, from where, when an existing file is kept, and when a
//! download counts as truncated. The transfers are the caller's part.
use vstd::prelude::*;

use crate::embed::{DEFAULT_MODEL_NAME, MODEL_REPO};
use crate::text::{append_chars, append_str, chars_of, decimal, push_decimal, string_of};

verus! {

/// The default download host (a reachable HuggingFace mirror).
pub const DEFAULT_ENDPOINT: &'static str = "https://hf-mirror.com";

/// The default model's pooling, stored with it in `embed-config.json`.
pub const DEFAULT_POOLING: &'static str = "mean";

/// A file to fetch: path in the repository, local name, expected size.
pub type FileSpec = (Seq<char>, Seq<char>, u64);

/// The files of the default model (the int8-quantised export and its
/// tokenizer); the sizes are checked after each transfer.
pub open spec fn model_files() -> Seq<FileSpec> {
    seq![
        ("onnx/model_quantized.onnx"@, "model.onnx"@, 118_308_126u64),
        ("tokenizer.json"@, "tokenizer.json"@, 17_082_913u64),
    ]
}

/// The files of the default model (see `model_files`).
pub fn download_files() -> (r: Vec<(String, String, u64)>)
    ensures
        r@.map_values(|f: (String, String, u64)| (f.0@, f.1@, f.2)) == model_files(),
{
    let mut r: Vec<(String, String, u64)> = Vec::new();
    r.push(("onnx/model_quantized.onnx".to_string(), "model.onnx".to_string(), 118_308_126u64));
    r.push(("tokenizer.json".to_string(), "tokenizer.json".to_string(), 17_082_913u64));
    proof {
        assert(r@.map_values(|f: (String, String, u64)| (f.0@, f.1@, f.2)) =~= model_files());
    }
    r
}

/// Why a download failed.
#[derive(Debug)]
pub enum DownloadError {
    /// The network or HTTP request failed.
    Http {
        /// The address requested.
        url: String,
        /// What failed.
        source: String,
    },
    /// A local file operation failed.
    Io {
        /// The file.
        path: String,
        /// What failed.
        source: String,
    },
    /// The bytes received differ from the expected size.
    SizeMismatch {
        /// The file name.
        name: String,
        /// Bytes expected.
        expected: u64,
        /// Bytes received.
        got: u64,
    },
    /// A model the downloader does not know.
    UnknownModel {
        /// The model asked for.
        name: String,
        /// The one model supported.
        supported: String,
    },
}

/// What a download error says to the user, one text per kind of error.
pub open spec fn download_message(e: DownloadError) -> Seq<char> {
    match e {
        DownloadError::Http { url, source } => "下载 "@ + url@ + " 失败："@ + source@,
        DownloadError::Io { path, source } => "写文件失败 "@ + path@ + "："@ + source@,
        DownloadError::SizeMismatch { name, expected, got } => "文件 "@ + name@ + " 体积不符：期望 "@ + decimal(expected as nat)
            + " 字节，实得 "@ + decimal(got as nat) + " 字节（下载可能被截断）"@,
        DownloadError::UnknownModel { name, supported } => "不支持下载模型 `"@ + name@ + "`；当前仅支持 `"@ + supported@ + "`"@,
    }
}

impl DownloadError {
    /// What this error says to the user (see `download_message`).
    pub fn message(&self) -> (m: String)
        ensures
            m@ == download_message(*self),
    {
        let mut buf: Vec<char> = Vec::new();
        match self {
            DownloadError::Http { url, source } => {
                append_str(&mut buf, "下载 ");
                append_str(&mut buf, url.as_str());
                append_str(&mut buf, " 失败：");
                append_str(&mut buf, source.as_str());
            },
            DownloadError::Io { path, source } => {
                append_str(&mut buf, "写文件失败 ");
                append_str(&mut buf, path.as_str());
                append_str(&mut buf, "：");
                append_str(&mut buf, source.as_str());
            },
            DownloadError::SizeMismatch { name, expected, got } => {
                append_str(&mut buf, "文件 ");
                append_str(&mut buf, name.as_str());
                append_str(&mut buf, " 体积不符：期望 ");
                push_decimal(*expected, &mut buf);
                append_str(&mut buf, " 字节，实得 ");
                push_decimal(*got, &mut buf);
                append_str(&mut buf, " 字节（下载可能被截断）");
            },
            DownloadError::UnknownModel { name, supported } => {
                append_str(&mut buf, "不支持下载模型 `");
                append_str(&mut buf, name.as_str());
                append_str(&mut buf, "`；当前仅支持 `");
                append_str(&mut buf, supported.as_str());
                append_str(&mut buf, "`");
            },
        }
        string_of(buf.as_slice())
    }
}

/// The outcome of a download.
#[derive(Debug, Clone)]
pub struct Report {
    /// Where the model was stored.
    pub dir: String,
    /// Each file with its size.
    pub files: Vec<(String, u64)>,
    /// Whether every file was already there and kept.
    pub all_skipped: bool,
}

/// Only the default model can be downloaded.
pub fn check_model_name(name: &str) -> (r: Result<(), DownloadError>)
    ensures
        name@ == DEFAULT_MODEL_NAME@ ==> r is Ok,
        name@ != DEFAULT_MODEL_NAME@ ==> (r matches Err(e) && e matches DownloadError::UnknownModel { name: n, supported: s }
            && n@ == name@ && s@ == DEFAULT_MODEL_NAME@),
{
    let a = chars_of(name);
    let b = chars_of(DEFAULT_MODEL_NAME);
    if crate::text::chars_eq(a.as_slice(), b.as_slice()) {
        Ok(())
    } else {
        Err(DownloadError::UnknownModel { name: name.to_string(), supported: DEFAULT_MODEL_NAME.to_string() })
    }
}

/// `s` without its trailing `/`s (`trim_end_matches('/')`).
pub open spec fn trim_slashes(s: Seq<char>) -> Seq<char>
    decreases s.len(),
{
    if s.len() > 0 && s.last() == '/' {
        trim_slashes(s.drop_last())
    } else {
        s
    }
}

/// The address of a repository file under an endpoint.
pub open spec fn file_url(endpoint: Seq<char>, remote: Seq<char>) -> Seq<char> {
    trim_slashes(endpoint) + "/"@ + MODEL_REPO@ + "/resolve/main/"@ + remote
}

/// The address of a repository file (see `file_url`).
pub fn download_url(endpoint: &str, remote: &str) -> (r: String)
    ensures
        r@ == file_url(endpoint@, remote@),
{
    let e = chars_of(endpoint);
    let mut n = e.len();
    proof {
        assert(e@.take(n as int) =~= e@);
    }
    while n > 0 && e[n - 1] == '/'
        invariant
            n <= e.len(),
            e@ == endpoint@,
            trim_slashes(endpoint@) == trim_slashes(e@.take(n as int)),
        decreases n,
    {
        proof {
            assert(e@.take(n as int).drop_last() =~= e@.take(n - 1));
            assert(e@.take(n as int).last() == e@[n - 1]);
        }
        n = n - 1;
    }
    proof {
        if n > 0 {
            assert(e@.take(n as int).last() == e@[n - 1]);
        }
    }
    let mut buf: Vec<char> = Vec::new();
    append_chars(&mut buf, crate::text::slice_to_vec(e.as_slice(), 0, n).as_slice());
    proof {
        assert(buf@ =~= e@.take(n as int));
    }
    append_str(&mut buf, "/");
    append_str(&mut buf, MODEL_REPO);
    append_str(&mut buf, "/resolve/main/");
    append_str(&mut buf, remote);
    string_of(buf.as_slice())
}

/// The name a file is written under while it downloads: its own name
/// followed by `.part`. It is renamed to its own name only once complete,
/// so a cut-off download is never taken for the finished file.
pub fn part_file_name(name: &str) -> (r: String)
    ensures
        r@ == name@ + ".part"@,
{
    let mut buf: Vec<char> = Vec::new();
    append_str(&mut buf, name);
    append_str(&mut buf, ".part");
    string_of(buf.as_slice())
}

/// An existing file is kept, not fetched again, when not forced and it
/// has the expected size.
pub fn keep_existing(force: bool, is_file: bool, size: u64, expected: u64) -> (b: bool)
    ensures
        b == (!force && is_file && size == expected),
{
    !force && is_file && size == expected
}

/// A transfer is complete when the expected size is unknown (zero) or met.
pub fn check_size(name: &str, expected: u64, got: u64) -> (r: Result<(), DownloadError>)
    ensures
        (expected == 0 || got == expected) ==> r is Ok,
        (expected > 0 && got != expected) ==> (r matches Err(e) && e matches DownloadError::SizeMismatch { name: n, expected: x, got: g }
            && n@ == name@ && x == expected && g == got),
{
    if expected > 0 && got != expected {
        Err(DownloadError::SizeMismatch { name: name.to_string(), expected, got })
    } else {
        Ok(())
    }
}

} // verus!
