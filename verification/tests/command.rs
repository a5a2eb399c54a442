use yoctofy::command::{
    check_metadata_run, host_triple, lock_search_step, metadata_args, needs_host, CommandArg,
    LockStep, MetadataRequest,
};
use yoctofy::error::RecipeError;

fn shown(request: &MetadataRequest) -> Vec<String> {
    metadata_args(request)
        .into_iter()
        .map(|arg| match arg {
            CommandArg::Text(s) => s,
            CommandArg::ManifestPath => "<manifest>".to_string(),
        })
        .collect()
}

fn request(manifest: bool, target: &str, features: &str, bare: bool) -> MetadataRequest {
    MetadataRequest {
        has_manifest_path: manifest,
        target: target.to_string(),
        host: " x86_64-unknown-linux-gnu\r".to_string(),
        features: features.to_string(),
        no_default_features: bare,
    }
}

#[test]
fn metadata_is_asked_for_plainly() {
    assert_eq!(
        shown(&request(false, "", "", false)),
        vec![
            "metadata",
            "--format-version",
            "1",
            "--locked",
            "--filter-platform",
            "x86_64-unknown-linux-gnu",
        ]
    );
}

#[test]
fn metadata_is_asked_for_with_everything() {
    assert_eq!(
        shown(&request(true, " aarch64-unknown-linux-gnu ", "feature-a,feature-b\n", true)),
        vec![
            "metadata",
            "--format-version",
            "1",
            "--locked",
            "--manifest-path",
            "<manifest>",
            "--filter-platform",
            "aarch64-unknown-linux-gnu",
            "--no-default-features",
            "--features",
            "feature-a,feature-b",
        ]
    );
}

#[test]
fn blank_options_are_as_if_not_given() {
    assert_eq!(
        shown(&request(false, " \t", "\u{3000}", false)),
        vec![
            "metadata",
            "--format-version",
            "1",
            "--locked",
            "--filter-platform",
            "x86_64-unknown-linux-gnu",
        ]
    );
}

#[test]
fn failed_metadata_tells_what_was_printed() {
    assert_eq!(check_metadata_run(true, "warning"), Ok(()));
    let error = check_metadata_run(false, "no such manifest").unwrap_err();
    assert_eq!(error, RecipeError::MetadataFailed { stderr: "no such manifest".to_string() });
    assert_eq!(error.message(), "cargo metadata failed: no such manifest");
}

#[test]
fn lock_file_is_looked_for_upwards() {
    assert_eq!(lock_search_step(3, &vec![]), LockStep::Probe(0));
    assert_eq!(lock_search_step(3, &vec![false]), LockStep::Probe(1));
    assert_eq!(lock_search_step(3, &vec![false, true]), LockStep::Load(1));
    assert_eq!(lock_search_step(3, &vec![false, false, false]), LockStep::NotFound);
    assert_eq!(lock_search_step(0, &vec![]), LockStep::NotFound);
    assert_eq!(lock_search_step(3, &vec![true, true]), LockStep::Load(0));
}

#[test]
fn missing_lock_file_tells_the_start() {
    let error = RecipeError::LockNotFound { start: "\"/a/b\"".to_string() };
    assert_eq!(error.message(), "Cargo.lock not found (walked up from \"/a/b\")");
}

#[test]
fn unreadable_lock_file_tells_why() {
    let error = RecipeError::BadLockfile { reason: "not so".to_string() };
    assert_eq!(error.message(), "not so");
}

#[test]
fn no_target_is_the_host_as_target() {
    assert_eq!(
        shown(&request(true, "", "a", true)),
        shown(&request(true, "x86_64-unknown-linux-gnu", "a", true))
    );
    assert!(needs_host(""));
    assert!(needs_host(" \t"));
    assert!(!needs_host(" aarch64-unknown-linux-gnu"));
}

#[test]
fn host_in_the_version_text() {
    let text = "cargo 1.90.0 (840b83a10 2025-07-30)\nrelease: 1.90.0\nhost: aarch64-apple-darwin\nhost: second\nos: x\n";
    assert_eq!(host_triple(text), Some("aarch64-apple-darwin".to_string()));
    assert_eq!(host_triple("host: a\r\nb"), Some("a\r".to_string()));
    assert_eq!(host_triple("host: "), Some(String::new()));
    assert_eq!(host_triple("a host: b\nhost:c\n"), None);
    assert_eq!(host_triple(""), None);
}

#[test]
fn unknown_host_is_told() {
    assert_eq!(RecipeError::NoHost.message(), "cargo does not tell its host");
}
