use halo::models::{all_installed, llm_path, next_download, model_infos, size_ok, spec_by_id, specs, whisper_path};

#[test]
fn has_two_fully_open_models() {
    let s = specs();
    assert_eq!(s.len(), 2);
    assert!(s.iter().any(|m| m.id == "whisper-base" && m.license == "MIT"));
    assert!(s.iter().any(|m| m.id == "qwen3-4b" && m.license == "Apache-2.0"));
}

#[test]
fn spec_lookup() {
    assert!(spec_by_id("qwen3-4b").is_some());
    assert!(spec_by_id("nope").is_none());
}

#[test]
fn model_paths_use_expected_filenames() {
    assert!(whisper_path("/models").ends_with("ggml-base.bin"));
    assert!(llm_path("/models").ends_with("Qwen3-4B-Instruct-2507-Q4_K_M.gguf"));
}

#[test]
fn size_threshold() {
    assert!(size_ok(90, 100));
    assert!(size_ok(100, 100));
    assert!(!size_ok(89, 100));
}

#[test]
fn size_threshold_on_large_files() {
    assert!(size_ok(u64::MAX, u64::MAX));
    assert!(!size_ok(0, 1));
    assert!(size_ok(0, 0));
}

#[test]
fn nothing_installed_in_empty_dir() {
    assert!(!all_installed(&[None, None]));
    let infos = model_infos(&[None, None]);
    assert_eq!(infos.len(), 2);
    assert!(infos.iter().all(|m| !m.installed));
}

#[test]
fn truncated_file_is_not_installed() {
    let infos = model_infos(&[Some(7), None]);
    assert!(!infos[0].installed);
}

#[test]
fn complete_files_are_installed() {
    let sizes = [Some(147_951_465), Some(2_497_000_000)];
    assert!(all_installed(&sizes));
    assert!(model_infos(&sizes).iter().all(|m| m.installed));
}

#[test]
fn next_download_skips_unknown_and_installed() {
    let ids = vec!["qwen3-4b".to_string(), "nope".to_string(), "whisper-base".to_string()];
    assert_eq!(next_download(&ids, 0, &[Some(147_951_465), None]), Some(0));
    assert_eq!(next_download(&ids, 1, &[Some(147_951_465), None]), None);
    assert_eq!(next_download(&ids, 1, &[None, None]), Some(2));
    assert_eq!(next_download(&ids, 3, &[None, None]), None);
}

#[test]
fn repeated_ids_are_checked_again_with_fresh_sizes() {
    let ids = vec!["whisper-base".to_string(), "whisper-base".to_string()];
    // The first download left a short file: the second request fetches again.
    assert_eq!(next_download(&ids, 1, &[Some(10), None]), Some(1));
    // The first download completed: nothing is left to fetch.
    assert_eq!(next_download(&ids, 1, &[Some(147_951_465), None]), None);
}
