use fan_control::args::{version, Args};

#[test]
fn version_joins_base_and_commit() {
    assert_eq!(version("0.1.6", "abc123"), "0.1.6-abc123");
    assert_eq!(version("", ""), "-");
}

#[test]
fn default_args_are_empty() {
    let a = Args::default();
    assert!(a.config_dir_path.is_none());
    assert!(a.config_name.is_none());
    assert!(a.log_file.is_none());
    assert!(!a.cli && !a.debug && !a.info && !a.serialize_hardware);
}
