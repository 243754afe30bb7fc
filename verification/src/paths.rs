//! Where the worker finds its models, its espeak-ng installation and its
//! state files. Paths are strings joined the way `PathBuf::join` joins a
//! relative component on Unix; the environment and the file system are
//! probed by the caller, which hands the results in.

use vstd::prelude::*;

verus! {

broadcast use vstd::string::group_string_axioms;

/// `base` joined with the relative path `part`: a `/` goes between them
/// unless `base` is empty or already ends with one.
pub open spec fn path_join(base: Seq<char>, part: Seq<char>) -> Seq<char> {
    if base.len() == 0 || base.last() == '/' {
        base + part
    } else {
        base + seq!['/'] + part
    }
}

/// `base.join(part)` for a relative `part`.
pub fn join(base: &str, part: &str) -> (r: String)
    ensures
        r@ == path_join(base@, part@),
{
    let mut r = String::from_str(base);
    let n = base.unicode_len();
    let need_sep = n > 0 && base.get_char(n - 1) != '/';
    if need_sep {
        r.push('/');
    }
    r.append(part);
    r
}

/// The worker's state directory name under the home directory.
pub open spec fn shadow_dir_spec(home: Seq<char>) -> Seq<char> {
    path_join(home, ".shadow-companion"@)
}

/// `~/.shadow-companion`
fn shadow_dir(home: &str) -> (r: String)
    ensures
        r@ == shadow_dir_spec(home@),
{
    join(home, ".shadow-companion")
}

/// `~/.shadow-companion/ref_codes.npy`
pub fn ref_codes_path(home: &str) -> (r: String)
    ensures
        r@ == path_join(shadow_dir_spec(home@), "ref_codes.npy"@),
{
    join(shadow_dir(home).as_str(), "ref_codes.npy")
}

/// `~/.shadow-companion/ref_text.txt`
pub fn ref_text_path(home: &str) -> (r: String)
    ensures
        r@ == path_join(shadow_dir_spec(home@), "ref_text.txt"@),
{
    join(shadow_dir(home).as_str(), "ref_text.txt")
}

/// `~/.shadow-companion/state.json`
pub fn state_json_path(home: &str) -> (r: String)
    ensures
        r@ == path_join(shadow_dir_spec(home@), "state.json"@),
{
    join(shadow_dir(home).as_str(), "state.json")
}

/// `~/.shadow-companion/tts-play-log.json`
pub fn play_log_path(home: &str) -> (r: String)
    ensures
        r@ == path_join(shadow_dir_spec(home@), "tts-play-log.json"@),
{
    join(shadow_dir(home).as_str(), "tts-play-log.json")
}

/// `~/.shadow-companion/`
pub fn state_dir(home: &str) -> (r: String)
    ensures
        r@ == shadow_dir_spec(home@),
{
    shadow_dir(home)
}


// ---------------------------------------------------------------------------
// Model and espeak-ng locations
// ---------------------------------------------------------------------------

/// `~/.cache/huggingface/hub`
pub open spec fn hf_hub_spec(home: Seq<char>) -> Seq<char> {
    path_join(path_join(path_join(home, ".cache"@), "huggingface"@), "hub"@)
}

fn hf_hub_dir(home: &str) -> (r: String)
    ensures
        r@ == hf_hub_spec(home@),
{
    join(join(join(home, ".cache").as_str(), "huggingface").as_str(), "hub")
}

/// The Hugging Face cache directory of the GGUF backbone.
pub fn gguf_cache_dir(home: &str) -> (r: String)
    ensures
        r@ == path_join(hf_hub_spec(home@), "models--neuphonic--neutts-air-q8-gguf"@),
{
    join(hf_hub_dir(home).as_str(), "models--neuphonic--neutts-air-q8-gguf")
}

/// The Hugging Face cache directory of the ONNX codec decoder.
pub fn onnx_cache_dir(home: &str) -> (r: String)
    ensures
        r@ == path_join(hf_hub_spec(home@), "models--neuphonic--neucodec-onnx-decoder"@),
{
    join(hf_hub_dir(home).as_str(), "models--neuphonic--neucodec-onnx-decoder")
}

/// The GGUF backbone's file name inside a snapshot.
pub const GGUF_FILE: &'static str = "neutts-air-Q8_0.gguf";

/// The ONNX decoder's file name inside a snapshot.
pub const ONNX_FILE: &'static str = "model.onnx";

/// `base/snapshots`
pub fn snapshots_dir(base: &str) -> (r: String)
    ensures
        r@ == path_join(base@, "snapshots"@),
{
    join(base, "snapshots")
}

/// The error when no snapshot under `snapshots` holds `filename`.
pub fn no_snapshot_error(filename: &str, snapshots: &str) -> (r: String)
    ensures
        r@ == "no snapshot containing '"@ + filename@ + "' found under "@ + snapshots@
            + " (set TTS_GGUF / TTS_ONNX env var to override)"@,
{
    let mut r = String::from_str("no snapshot containing '");
    r.append(filename);
    r.append("' found under ");
    r.append(snapshots);
    r.append(" (set TTS_GGUF / TTS_ONNX env var to override)");
    r
}

/// How a model path is resolved.
pub enum ModelLookup {
    /// The path to use.
    Found(String),
    /// The lookup failed with this message.
    Failed(String),
    /// Search the snapshot subdirectories of `snapshots` for `file`.
    Search { snapshots: String, file: String },
}

/// The path named by the environment variable `var` set to `value`, or the
/// error when nothing exists there.
fn env_override(var: &str, value: &str, exists: bool, missing: &str) -> (r: Result<String, String>)
    ensures
        exists ==> (r matches Ok(p) && p@ == value@),
        !exists ==> (r matches Err(m) && m@ == var@ + "="@ + value@ + missing@),
{
    if exists {
        Ok(String::from_str(value))
    } else {
        let mut m = String::from_str(var);
        m.append("=");
        m.append(value);
        m.append(missing);
        Err(m)
    }
}

/// The resolution of a model path: the override `env` (the value of the
/// variable `var`, when set) if something exists there (`env_exists`), an
/// error if not; without an override, a search of `base`'s snapshots for `file`.
pub open spec fn model_lookup_ok(
    r: ModelLookup,
    var: Seq<char>,
    env: Option<Seq<char>>,
    env_exists: bool,
    base: Seq<char>,
    file: Seq<char>,
) -> bool {
    match env {
        Some(p) => if env_exists {
            r matches ModelLookup::Found(q) && q@ == p
        } else {
            r matches ModelLookup::Failed(m) && m@ == var + "="@ + p + " does not exist"@
        },
        None => r matches ModelLookup::Search { snapshots, file: f } && snapshots@ == path_join(
            base,
            "snapshots"@,
        ) && f@ == file,
    }
}

fn model_lookup(var: &str, env: Option<String>, env_exists: bool, base: &str, file: &str) -> (r:
    ModelLookup)
    ensures
        model_lookup_ok(r, var@, env.deep_view(), env_exists, base@, file@),
{
    match env {
        Some(p) => match env_override(var, p.as_str(), env_exists, " does not exist") {
            Ok(q) => ModelLookup::Found(q),
            Err(m) => ModelLookup::Failed(m),
        },
        None => ModelLookup::Search { snapshots: snapshots_dir(base), file: String::from_str(file) },
    }
}

/// Resolve the GGUF backbone model path.
/// Order: `TTS_GGUF` env (`env`, with `env_exists` telling whether that path
/// exists) → search the HF cache snapshots.
pub fn resolve_gguf_path(env: Option<String>, env_exists: bool, home: &str) -> (r: ModelLookup)
    ensures
        model_lookup_ok(
            r,
            "TTS_GGUF"@,
            env.deep_view(),
            env_exists,
            path_join(hf_hub_spec(home@), "models--neuphonic--neutts-air-q8-gguf"@),
            GGUF_FILE@,
        ),
{
    let base = gguf_cache_dir(home);
    model_lookup("TTS_GGUF", env, env_exists, base.as_str(), GGUF_FILE)
}

/// Resolve the ONNX decoder model path.
/// Order: `TTS_ONNX` env (`env`, with `env_exists` telling whether that path
/// exists) → search the HF cache snapshots.
pub fn resolve_onnx_path(env: Option<String>, env_exists: bool, home: &str) -> (r: ModelLookup)
    ensures
        model_lookup_ok(
            r,
            "TTS_ONNX"@,
            env.deep_view(),
            env_exists,
            path_join(hf_hub_spec(home@), "models--neuphonic--neucodec-onnx-decoder"@),
            ONNX_FILE@,
        ),
{
    let base = onnx_cache_dir(home);
    model_lookup("TTS_ONNX", env, env_exists, base.as_str(), ONNX_FILE)
}

/// `~/shadow-companion/.venv/lib/python3.13/site-packages/neutts`
pub open spec fn venv_neutts_spec(home: Seq<char>) -> Seq<char> {
    path_join(
        path_join(
            path_join(
                path_join(path_join(path_join(home, "shadow-companion"@), ".venv"@), "lib"@),
                "python3.13"@,
            ),
            "site-packages"@,
        ),
        "neutts"@,
    )
}

fn venv_neutts_dir(home: &str) -> (r: String)
    ensures
        r@ == venv_neutts_spec(home@),
{
    let a = join(join(join(home, "shadow-companion").as_str(), ".venv").as_str(), "lib");
    join(join(join(a.as_str(), "python3.13").as_str(), "site-packages").as_str(), "neutts")
}

/// `~/.shadow-companion/espeak/libespeak-ng.dylib`
pub fn espeak_lib_staged(home: &str) -> (r: String)
    ensures
        r@ == path_join(path_join(shadow_dir_spec(home@), "espeak"@), "libespeak-ng.dylib"@),
{
    join(join(shadow_dir(home).as_str(), "espeak").as_str(), "libespeak-ng.dylib")
}

/// The venv's `neutts/libespeak-ng.dylib`.
pub fn espeak_lib_venv(home: &str) -> (r: String)
    ensures
        r@ == path_join(venv_neutts_spec(home@), "libespeak-ng.dylib"@),
{
    join(venv_neutts_dir(home).as_str(), "libespeak-ng.dylib")
}

/// `~/.shadow-companion/espeak/espeak-ng-data`
pub fn espeak_data_staged(home: &str) -> (r: String)
    ensures
        r@ == path_join(path_join(shadow_dir_spec(home@), "espeak"@), "espeak-ng-data"@),
{
    join(join(shadow_dir(home).as_str(), "espeak").as_str(), "espeak-ng-data")
}

/// The venv's `neutts/espeak-ng-data`.
pub fn espeak_data_venv(home: &str) -> (r: String)
    ensures
        r@ == path_join(venv_neutts_spec(home@), "espeak-ng-data"@),
{
    join(venv_neutts_dir(home).as_str(), "espeak-ng-data")
}

/// The first of three candidate locations that exists: the override `env`
/// (the value of `var`), else `staged`, else `venv`; with the override set,
/// only the override counts.
pub open spec fn first_existing(
    r: Result<String, String>,
    var: Seq<char>,
    env: Option<Seq<char>>,
    env_ok: bool,
    missing: Seq<char>,
    staged: Seq<char>,
    staged_ok: bool,
    venv: Seq<char>,
    venv_ok: bool,
    what: Seq<char>,
) -> bool {
    match env {
        Some(p) => if env_ok {
            r matches Ok(q) && q@ == p
        } else {
            r matches Err(m) && m@ == var + "="@ + p + missing
        },
        None => if staged_ok {
            r matches Ok(q) && q@ == staged
        } else if venv_ok {
            r matches Ok(q) && q@ == venv
        } else {
            r matches Err(m) && m@ == what + " not found at "@ + staged + " or "@ + venv
                + " (set "@ + var + " env var to override)"@
        },
    }
}

fn pick_existing(
    var: &str,
    env: Option<String>,
    env_ok: bool,
    missing: &str,
    staged: String,
    staged_ok: bool,
    venv: String,
    venv_ok: bool,
    what: &str,
) -> (r: Result<String, String>)
    ensures
        first_existing(
            r,
            var@,
            env.deep_view(),
            env_ok,
            missing@,
            staged@,
            staged_ok,
            venv@,
            venv_ok,
            what@,
        ),
{
    match env {
        Some(p) => env_override(var, p.as_str(), env_ok, missing),
        None => {
            if staged_ok {
                Ok(staged)
            } else if venv_ok {
                Ok(venv)
            } else {
                let mut m = String::from_str(what);
                m.append(" not found at ");
                m.append(staged.as_str());
                m.append(" or ");
                m.append(venv.as_str());
                m.append(" (set ");
                m.append(var);
                m.append(" env var to override)");
                Err(m)
            }
        },
    }
}

/// Resolve the espeak-ng dynamic library path.
/// Order: `TTS_ESPEAK_LIB` env → `~/.shadow-companion/espeak/libespeak-ng.dylib`
/// → venv `neutts/libespeak-ng.dylib`; each flag tells whether that
/// candidate exists.
pub fn resolve_espeak_lib(
    env: Option<String>,
    env_exists: bool,
    staged_exists: bool,
    venv_exists: bool,
    home: &str,
) -> (r: Result<String, String>)
    ensures
        first_existing(
            r,
            "TTS_ESPEAK_LIB"@,
            env.deep_view(),
            env_exists,
            " does not exist"@,
            path_join(path_join(shadow_dir_spec(home@), "espeak"@), "libespeak-ng.dylib"@),
            staged_exists,
            path_join(venv_neutts_spec(home@), "libespeak-ng.dylib"@),
            venv_exists,
            "libespeak-ng.dylib"@,
        ),
{
    pick_existing(
        "TTS_ESPEAK_LIB",
        env,
        env_exists,
        " does not exist",
        espeak_lib_staged(home),
        staged_exists,
        espeak_lib_venv(home),
        venv_exists,
        "libespeak-ng.dylib",
    )
}

/// Resolve the espeak-ng data directory path.
/// Order: `TTS_ESPEAK_DATA` env → `~/.shadow-companion/espeak/espeak-ng-data`
/// → venv `neutts/espeak-ng-data`; each flag tells whether that candidate is
/// a directory.
pub fn resolve_espeak_data(
    env: Option<String>,
    env_is_dir: bool,
    staged_is_dir: bool,
    venv_is_dir: bool,
    home: &str,
) -> (r: Result<String, String>)
    ensures
        first_existing(
            r,
            "TTS_ESPEAK_DATA"@,
            env.deep_view(),
            env_is_dir,
            " does not exist or is not a directory"@,
            path_join(path_join(shadow_dir_spec(home@), "espeak"@), "espeak-ng-data"@),
            staged_is_dir,
            path_join(venv_neutts_spec(home@), "espeak-ng-data"@),
            venv_is_dir,
            "espeak-ng-data"@,
        ),
{
    pick_existing(
        "TTS_ESPEAK_DATA",
        env,
        env_is_dir,
        " does not exist or is not a directory",
        espeak_data_staged(home),
        staged_is_dir,
        espeak_data_venv(home),
        venv_is_dir,
        "espeak-ng-data",
    )
}

} // verus!
