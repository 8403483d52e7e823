//! The catalogue of the two on-device models and the rules that decide
//! whether each is installed.
use vstd::prelude::*;
use crate::paths::{join_path, joined_path};
use crate::text::str_eq;
use crate::types::{ModelInfo, ModelKind};

verus! {

/// A model the app knows how to download and run.
pub struct ModelSpec {
    pub id: &'static str,
    pub kind: ModelKind,
    pub name: &'static str,
    pub file_name: &'static str,
    pub url: &'static str,
    pub approx_size: u64,
    pub license: &'static str,
}

/// The catalogue entry at position `i` has these fields.
pub open spec fn spec_entry(
    m: ModelSpec,
    id: Seq<char>,
    kind: ModelKind,
    name: Seq<char>,
    file_name: Seq<char>,
    url: Seq<char>,
    approx_size: u64,
    license: Seq<char>,
) -> bool {
    &&& m.id@ == id
    &&& m.kind == kind
    &&& m.name@ == name
    &&& m.file_name@ == file_name
    &&& m.url@ == url
    &&& m.approx_size == approx_size
    &&& m.license@ == license
}

/// The file name of the Whisper model.
pub open spec fn whisper_file() -> Seq<char> {
    "ggml-base.bin"@
}

/// The file name of the language model.
pub open spec fn llm_file() -> Seq<char> {
    "Qwen3-4B-Instruct-2507-Q4_K_M.gguf"@
}

/// The Whisper base model (MIT), used for transcription.
pub open spec fn whisper_entry(m: ModelSpec) -> bool {
    spec_entry(
        m,
        "whisper-base"@,
        ModelKind::Whisper,
        "Whisper Base (multilingual)"@,
        whisper_file(),
        "https://huggingface.co/ggerganov/whisper.cpp/resolve/main/ggml-base.bin"@,
        147_951_465,
        "MIT"@,
    )
}

/// The Qwen3-4B Instruct model (Apache-2.0), used for writing notes.
pub open spec fn llm_entry(m: ModelSpec) -> bool {
    spec_entry(
        m,
        "qwen3-4b"@,
        ModelKind::Llm,
        "Qwen3-4B Instruct"@,
        llm_file(),
        "https://huggingface.co/Qwen/Qwen3-4B-Instruct-2507-GGUF/resolve/main/Qwen3-4B-Instruct-2507-Q4_K_M.gguf"@,
        2_497_000_000,
        "Apache-2.0"@,
    )
}

/// The catalogue: Whisper base for transcription, then Qwen3-4B Instruct
/// for note writing.
pub open spec fn is_catalogue(s: Seq<ModelSpec>) -> bool {
    &&& s.len() == 2
    &&& whisper_entry(s[0])
    &&& llm_entry(s[1])
}

/// The two fixed, fully-open models the app ships with.
pub fn specs() -> (r: Vec<ModelSpec>)
    ensures
        is_catalogue(r@),
{
    vec![
        ModelSpec {
            id: "whisper-base",
            kind: ModelKind::Whisper,
            name: "Whisper Base (multilingual)",
            file_name: "ggml-base.bin",
            url: "https://huggingface.co/ggerganov/whisper.cpp/resolve/main/ggml-base.bin",
            approx_size: 147_951_465,
            license: "MIT",
        },
        ModelSpec {
            id: "qwen3-4b",
            kind: ModelKind::Llm,
            name: "Qwen3-4B Instruct",
            file_name: "Qwen3-4B-Instruct-2507-Q4_K_M.gguf",
            url: "https://huggingface.co/Qwen/Qwen3-4B-Instruct-2507-GGUF/resolve/main/Qwen3-4B-Instruct-2507-Q4_K_M.gguf",
            approx_size: 2_497_000_000,
            license: "Apache-2.0",
        },
    ]
}

/// The catalogue entry with this id.
pub fn spec_by_id(id: &str) -> (r: Option<ModelSpec>)
    ensures
        r is Some <==> (id@ == "whisper-base"@ || id@ == "qwen3-4b"@),
        r matches Some(m) ==> (if id@ == "whisper-base"@ {
            whisper_entry(m)
        } else {
            llm_entry(m)
        }),
{
    let mut all = specs();
    let second = all.pop().unwrap();
    let first = all.pop().unwrap();
    if str_eq(first.id, id) {
        Some(first)
    } else if str_eq(second.id, id) {
        Some(second)
    } else {
        None
    }
}

/// A download counts as installed only once it reached 90% of the expected
/// size, guarding against truncated downloads.
pub fn size_ok(actual: u64, expected: u64) -> (r: bool)
    ensures
        r == (10 * actual >= 9 * expected),
{
    (actual as u128) * 10 >= (expected as u128) * 9
}

/// The size check is monotone: a file at least as large as one that passes
/// passes too, and every expected size is reached by a file of that size.
pub proof fn law_size_ok_monotone(a: u64, b: u64, expected: u64)
    requires
        10 * a >= 9 * expected,
        a <= b,
    ensures
        10 * b >= 9 * expected,
        10 * expected >= 9 * expected,
{
}

/// Where the Whisper model lives inside `models_dir`.
pub fn whisper_path(models_dir: &str) -> (r: String)
    ensures
        r@ == joined_path(models_dir@, whisper_file()),
{
    join_path(models_dir, "ggml-base.bin")
}

/// Where the language model lives inside `models_dir`.
pub fn llm_path(models_dir: &str) -> (r: String)
    ensures
        r@ == joined_path(models_dir@, llm_file()),
{
    join_path(models_dir, "Qwen3-4B-Instruct-2507-Q4_K_M.gguf")
}

/// Whether the catalogue entry `i` is installed, given the sizes of the files
/// found for each entry (`None` where the file is missing).
pub open spec fn installed_at(sizes: Seq<Option<u64>>, i: int, expected: u64) -> bool {
    &&& 0 <= i < sizes.len()
    &&& sizes[i] matches Some(n)
    &&& 10 * n >= 9 * expected
}

fn installed(sizes: &[Option<u64>], i: usize, expected: u64) -> (r: bool)
    ensures
        r == installed_at(sizes@, i as int, expected),
{
    if i < sizes.len() {
        match sizes[i] {
            Some(n) => size_ok(n, expected),
            None => false,
        }
    } else {
        false
    }
}

/// The catalogue as shown to the user; `file_sizes[i]` is the size of the
/// file of catalogue entry `i` in the models directory, `None` where it is
/// missing.
pub fn model_infos(file_sizes: &[Option<u64>]) -> (r: Vec<ModelInfo>)
    ensures
        r@.len() == 2,
        forall|i: int|
            0 <= i < 2 ==> {
                let m = #[trigger] r@[i];
                &&& m.id@ == (if i == 0 {
                    "whisper-base"@
                } else {
                    "qwen3-4b"@
                })
                &&& m.kind == (if i == 0 {
                    ModelKind::Whisper
                } else {
                    ModelKind::Llm
                })
                &&& m.name@ == (if i == 0 {
                    "Whisper Base (multilingual)"@
                } else {
                    "Qwen3-4B Instruct"@
                })
                &&& m.size_bytes == (if i == 0 {
                    147_951_465u64
                } else {
                    2_497_000_000u64
                })
                &&& m.license@ == (if i == 0 {
                    "MIT"@
                } else {
                    "Apache-2.0"@
                })
                &&& m.installed == installed_at(file_sizes@, i, m.size_bytes)
            },
{
    let all = specs();
    let mut out: Vec<ModelInfo> = Vec::new();
    let mut i: usize = 0;
    while i < all.len()
        invariant
            is_catalogue(all@),
            0 <= i <= 2,
            out@.len() == i,
            forall|j: int|
                0 <= j < i ==> {
                    let m = #[trigger] out@[j];
                    &&& m.id@ == all@[j].id@
                    &&& m.kind == all@[j].kind
                    &&& m.name@ == all@[j].name@
                    &&& m.size_bytes == all@[j].approx_size
                    &&& m.license@ == all@[j].license@
                    &&& m.installed == installed_at(file_sizes@, j, m.size_bytes)
                },
        decreases 2 - i,
    {
        let s = &all[i];
        out.push(
            ModelInfo {
                id: String::from_str(s.id),
                kind: s.kind,
                name: String::from_str(s.name),
                size_bytes: s.approx_size,
                installed: installed(file_sizes, i, s.approx_size),
                license: String::from_str(s.license),
            },
        );
        i = i + 1;
    }
    out
}

/// Whether every catalogue model is installed, given the file sizes as for
/// `model_infos`.
pub fn all_installed(file_sizes: &[Option<u64>]) -> (r: bool)
    ensures
        r == (installed_at(file_sizes@, 0, 147_951_465) && installed_at(
            file_sizes@,
            1,
            2_497_000_000,
        )),
{
    installed(file_sizes, 0, 147_951_465) && installed(file_sizes, 1, 2_497_000_000)
}

/// The catalogue position of the model with this id: 0 for Whisper, 1 for
/// the language model, none for an unknown id.
pub open spec fn catalogue_index(id: Seq<char>) -> Option<int> {
    if id == "whisper-base"@ {
        Some(0)
    } else if id == "qwen3-4b"@ {
        Some(1)
    } else {
        None
    }
}

/// The expected size of catalogue entry `i`.
pub open spec fn expected_size(i: int) -> u64 {
    if i == 0 {
        147_951_465
    } else {
        2_497_000_000
    }
}

/// The requested id still needs downloading, given the current file sizes:
/// it names a catalogue model that is not installed.
pub open spec fn pending(id: Seq<char>, sizes: Seq<Option<u64>>) -> bool {
    match catalogue_index(id) {
        Some(i) => !installed_at(sizes, i, expected_size(i)),
        None => false,
    }
}

/// The next requested id to download, looking from position `k` on, given
/// the file sizes as they are now: the first that names a catalogue model
/// that is not installed, as its position in `ids`. A download request
/// calls this again after each download, with fresh sizes.
pub fn next_download(ids: &Vec<String>, k: usize, file_sizes: &[Option<u64>]) -> (r: Option<usize>)
    ensures
        match r {
            Some(j) => k <= j < ids@.len() && pending(ids@[j as int]@, file_sizes@) && forall|t: int|
                k <= t < j ==> !pending(#[trigger] ids@[t]@, file_sizes@),
            None => forall|t: int| k <= t < ids@.len() ==> !pending(#[trigger] ids@[t]@, file_sizes@),
        },
{
    let mut j = k;
    while j < ids.len()
        invariant
            k <= j,
            forall|t: int| k <= t < j && t < ids@.len() ==> !pending(#[trigger] ids@[t]@, file_sizes@),
        decreases ids@.len() - j,
    {
        let id = ids[j].as_str();
        let hit = if str_eq(id, "whisper-base") {
            !installed(file_sizes, 0, 147_951_465)
        } else if str_eq(id, "qwen3-4b") {
            !installed(file_sizes, 1, 2_497_000_000)
        } else {
            false
        };
        if hit {
            return Some(j);
        }
        j = j + 1;
    }
    None
}

} // verus!
