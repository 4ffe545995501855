use cargo_px::env_vars::{
    generated_pkg_manifest_path, px_env_var, workspace_root_dir, RawEnvError, VarError,
};
use cargo_px::shell::{ColorChoice, Hyperlink, Verbosity};

#[test]
fn env_value_passes_through() {
    let r = workspace_root_dir(Ok("/ws".to_string()));
    assert_eq!(r.unwrap(), "/ws");
}

#[test]
fn missing_env_var_names_the_variable() {
    match workspace_root_dir(Err(RawEnvError::Missing)) {
        Err(VarError::Missing(e)) => assert_eq!(e.name, "CARGO_PX_WORKSPACE_ROOT_DIR"),
        _ => panic!("expected a missing-variable error"),
    }
    match generated_pkg_manifest_path(Err(RawEnvError::InvalidUnicode)) {
        Err(VarError::InvalidUnicode(e)) => {
            assert_eq!(e.name, "CARGO_PX_GENERATED_PKG_MANIFEST_PATH")
        }
        _ => panic!("expected an invalid-unicode error"),
    }
}

#[test]
fn px_env_var_labels_failures() {
    match px_env_var("SOME_VAR", Err(RawEnvError::Missing)) {
        Err(VarError::Missing(e)) => assert_eq!(e.name, "SOME_VAR"),
        _ => panic!("expected a missing-variable error"),
    }
}

#[test]
fn hyperlink_frames_url() {
    let h = Hyperlink { url: Some("https://example.org".to_string()) };
    assert_eq!(h.open(), "\x1b]8;;https://example.org\x1b\\");
    assert_eq!(h.close(), "\x1b]8;;\x1b\\");
    let none = Hyperlink::none();
    assert_eq!(none.open(), "");
    assert_eq!(none.close(), "");
}

#[test]
fn verbosity_and_color_compare() {
    assert_eq!(Verbosity::Quiet, Verbosity::Quiet);
    assert_ne!(Verbosity::Quiet, Verbosity::Verbose);
    assert_eq!(ColorChoice::CargoAuto, ColorChoice::CargoAuto);
}
