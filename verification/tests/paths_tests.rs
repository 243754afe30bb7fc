use std::path::{Path, PathBuf};
use tts_worker_rs::paths::{
    espeak_data_staged, espeak_data_venv, espeak_lib_staged, espeak_lib_venv, gguf_cache_dir,
    join, no_snapshot_error, onnx_cache_dir, play_log_path, ref_codes_path, ref_text_path,
    resolve_espeak_data, resolve_espeak_lib, resolve_gguf_path, resolve_onnx_path,
    snapshots_dir, state_dir, state_json_path, ModelLookup, GGUF_FILE, ONNX_FILE,
};

const HOME: &str = "/home/tester";

#[test]
fn state_dir_is_home_shadow_companion() {
    let sd = state_dir(HOME);
    assert!(Path::new(&sd).ends_with(".shadow-companion"));
}

#[test]
fn ref_codes_under_state_dir() {
    assert_eq!(PathBuf::from(ref_codes_path(HOME)), PathBuf::from(state_dir(HOME)).join("ref_codes.npy"));
}

#[test]
fn ref_text_under_state_dir() {
    assert_eq!(PathBuf::from(ref_text_path(HOME)), PathBuf::from(state_dir(HOME)).join("ref_text.txt"));
}

#[test]
fn state_json_under_state_dir() {
    assert_eq!(PathBuf::from(state_json_path(HOME)), PathBuf::from(state_dir(HOME)).join("state.json"));
}

#[test]
fn play_log_under_state_dir() {
    assert_eq!(
        PathBuf::from(play_log_path(HOME)),
        PathBuf::from(state_dir(HOME)).join("tts-play-log.json")
    );
}

#[test]
fn resolve_gguf_uses_env() {
    let base = gguf_cache_dir(HOME);
    assert!(base.contains("neutts-air-q8-gguf"));
}

#[test]
fn resolve_onnx_uses_correct_model_dir() {
    let base = onnx_cache_dir(HOME);
    assert!(base.contains("neucodec-onnx-decoder"));
}

// ---------------------------------------------------------------------------
// Further cases
// ---------------------------------------------------------------------------

#[test]
fn join_matches_pathbuf_join() {
    for (base, part) in [("/a/b", "c"), ("/a/b/", "c"), ("", "c"), ("rel", "x.y"), ("/", "z")] {
        assert_eq!(PathBuf::from(join(base, part)), Path::new(base).join(part), "{base:?} {part:?}");
    }
    assert_eq!(state_dir(HOME), "/home/tester/.shadow-companion");
    assert_eq!(state_dir("/root/"), "/root/.shadow-companion");
}

#[test]
fn cache_dirs_exact() {
    assert_eq!(
        gguf_cache_dir(HOME),
        "/home/tester/.cache/huggingface/hub/models--neuphonic--neutts-air-q8-gguf"
    );
    assert_eq!(
        onnx_cache_dir(HOME),
        "/home/tester/.cache/huggingface/hub/models--neuphonic--neucodec-onnx-decoder"
    );
    assert_eq!(snapshots_dir("/m"), "/m/snapshots");
}

#[test]
fn gguf_lookup() {
    match resolve_gguf_path(Some("/x.gguf".to_string()), true, HOME) {
        ModelLookup::Found(p) => assert_eq!(p, "/x.gguf"),
        _ => panic!("expected the override"),
    }
    match resolve_gguf_path(Some("/x.gguf".to_string()), false, HOME) {
        ModelLookup::Failed(m) => assert_eq!(m, "TTS_GGUF=/x.gguf does not exist"),
        _ => panic!("expected an error"),
    }
    match resolve_gguf_path(None, false, HOME) {
        ModelLookup::Search { snapshots, file } => {
            assert_eq!(
                snapshots,
                "/home/tester/.cache/huggingface/hub/models--neuphonic--neutts-air-q8-gguf/snapshots"
            );
            assert_eq!(file, GGUF_FILE);
        }
        _ => panic!("expected a search"),
    }
}

#[test]
fn onnx_lookup() {
    match resolve_onnx_path(Some("/m.onnx".to_string()), false, HOME) {
        ModelLookup::Failed(m) => assert_eq!(m, "TTS_ONNX=/m.onnx does not exist"),
        _ => panic!("expected an error"),
    }
    match resolve_onnx_path(None, true, HOME) {
        ModelLookup::Search { file, .. } => assert_eq!(file, ONNX_FILE),
        _ => panic!("expected a search"),
    }
}

#[test]
fn snapshot_error_text() {
    assert_eq!(
        no_snapshot_error("model.onnx", "/m/snapshots"),
        "no snapshot containing 'model.onnx' found under /m/snapshots (set TTS_GGUF / TTS_ONNX env var to override)"
    );
}

#[test]
fn espeak_lib_lookup() {
    assert_eq!(
        espeak_lib_staged(HOME),
        "/home/tester/.shadow-companion/espeak/libespeak-ng.dylib"
    );
    assert_eq!(
        espeak_lib_venv(HOME),
        "/home/tester/shadow-companion/.venv/lib/python3.13/site-packages/neutts/libespeak-ng.dylib"
    );
    assert_eq!(resolve_espeak_lib(Some("/l".into()), true, false, false, HOME), Ok("/l".to_string()));
    assert_eq!(
        resolve_espeak_lib(Some("/l".into()), false, true, true, HOME),
        Err("TTS_ESPEAK_LIB=/l does not exist".to_string())
    );
    assert_eq!(resolve_espeak_lib(None, false, true, true, HOME), Ok(espeak_lib_staged(HOME)));
    assert_eq!(resolve_espeak_lib(None, false, false, true, HOME), Ok(espeak_lib_venv(HOME)));
    assert_eq!(
        resolve_espeak_lib(None, false, false, false, HOME),
        Err(format!(
            "libespeak-ng.dylib not found at {} or {} (set TTS_ESPEAK_LIB env var to override)",
            espeak_lib_staged(HOME),
            espeak_lib_venv(HOME)
        ))
    );
}

#[test]
fn espeak_data_lookup() {
    assert_eq!(espeak_data_staged(HOME), "/home/tester/.shadow-companion/espeak/espeak-ng-data");
    assert_eq!(
        resolve_espeak_data(Some("/d".into()), false, false, false, HOME),
        Err("TTS_ESPEAK_DATA=/d does not exist or is not a directory".to_string())
    );
    assert_eq!(resolve_espeak_data(None, false, false, true, HOME), Ok(espeak_data_venv(HOME)));
    assert_eq!(
        resolve_espeak_data(None, false, false, false, HOME),
        Err(format!(
            "espeak-ng-data not found at {} or {} (set TTS_ESPEAK_DATA env var to override)",
            espeak_data_staged(HOME),
            espeak_data_venv(HOME)
        ))
    );
}
