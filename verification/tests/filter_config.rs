use claude_code_sync::filter::{
    apply_config_updates, glob_match, parse_csv, sanitize_device_name, Backend, ConfigError,
    ConfigSyncSettings, FilterConfig,
};

#[test]
fn test_glob_match() {
    assert!(glob_match("*test*", "this is a test"));
    assert!(glob_match("test*", "testing"));
    assert!(glob_match("*test", "this is a test"));
    assert!(!glob_match("test*", "no match"));
}

#[test]
fn test_filter_config_default() {
    let config = FilterConfig::default();
    assert_eq!(config.exclude_older_than_days, None);
    assert!(config.include_patterns.is_empty());
    assert!(config.exclude_patterns.is_empty());
    assert!(!config.exclude_attachments);
}

#[test]
fn test_config_sync_settings_default() {
    let settings = ConfigSyncSettings::default();
    assert!(settings.enabled);
    assert!(settings.sync_settings);
    assert!(settings.sync_claude_md);
    assert!(!settings.sync_hooks);
    assert!(settings.sync_skills_list);
    assert!(settings.auto_apply_claude_md);
}

#[test]
fn test_exclude_attachments_filter() {
    // with the default configuration everything passes
    let config_include_all = FilterConfig::default();
    assert!(config_include_all.should_include("session.jsonl", None, None));
    assert!(config_include_all.should_include("image.png", None, None));
    assert!(config_include_all.should_include("document.pdf", None, None));

    // with attachments excluded only transcripts pass
    let mut config_exclude = FilterConfig::default();
    config_exclude.exclude_attachments = true;
    assert!(config_exclude.should_include("session.jsonl", None, None));
    assert!(!config_exclude.should_include("image.png", None, None));
    assert!(!config_exclude.should_include("image.jpg", None, None));
    assert!(!config_exclude.should_include("document.pdf", None, None));
    assert!(!config_exclude.should_include("archive.zip", None, None));
}

#[test]
fn test_exclude_attachments_with_patterns() {
    let mut config = FilterConfig::default();
    config.exclude_attachments = true;
    config.exclude_patterns = vec!["*test*".to_string()];

    assert!(!config.should_include("image.png", None, None));
    assert!(!config.should_include("/path/test/session.jsonl", None, None));
    assert!(config.should_include("/path/prod/session.jsonl", None, None));
}

#[test]
fn test_should_include_size_and_age() {
    let config = FilterConfig::default();
    assert!(config.should_include("a.jsonl", Some(10485760), None));
    assert!(!config.should_include("a.jsonl", Some(10485761), None));

    let mut aged = FilterConfig::default();
    aged.exclude_older_than_days = Some(1);
    assert!(aged.should_include("a.jsonl", None, Some(86400)));
    assert!(!aged.should_include("a.jsonl", None, Some(86401)));
    // an unreadable age passes, as the scan treats it
    assert!(aged.should_include("a.jsonl", None, None));
}

#[test]
fn test_validate_rejects_lfs_off_git() {
    let mut config = FilterConfig::default();
    config.enable_lfs = true;
    config.scm_backend = "mercurial".to_string();
    let r = config.validate();
    assert!(r.is_err());
    let msg = r.unwrap_err().message();
    assert!(!msg.is_empty());
    assert!(msg.contains("git"));
}

#[test]
fn test_validate_accepts_lfs_on_git() {
    let mut config = FilterConfig::default();
    config.enable_lfs = true;
    assert!(config.validate().is_ok());
}

#[test]
fn test_backend_names() {
    let mut config = FilterConfig::default();
    assert_eq!(config.backend().unwrap(), Backend::Git);
    config.scm_backend = "Mercurial".to_string();
    assert_eq!(config.backend().unwrap(), Backend::Mercurial);
    config.scm_backend = "HG".to_string();
    assert_eq!(config.backend().unwrap(), Backend::Mercurial);
    config.scm_backend = "svn".to_string();
    let err = config.backend().unwrap_err();
    assert_eq!(err, ConfigError::UnknownBackend("svn".to_string()));
    assert!(err.message().contains("svn"));
}

#[test]
fn test_apply_config_updates() {
    let config = FilterConfig::default();
    let updated = apply_config_updates(
        &config,
        Some(30),
        Some("alpha, beta , ,gamma"),
        None,
        Some(true),
        None,
        None,
        Some("Mercurial"),
        Some("  history  "),
        Some(false),
    )
    .unwrap();
    assert_eq!(updated.exclude_older_than_days, Some(30));
    assert_eq!(updated.include_patterns, vec!["alpha", "beta", "gamma"]);
    assert!(updated.exclude_patterns.is_empty());
    assert!(updated.exclude_attachments);
    assert_eq!(updated.scm_backend, "mercurial");
    assert_eq!(updated.sync_subdirectory, "history");
    assert!(!updated.use_project_name_only);
}

#[test]
fn test_apply_config_updates_rejections() {
    let config = FilterConfig::default();
    let bad_backend = apply_config_updates(
        &config, None, None, None, None, None, None, Some("svn"), None, None,
    );
    assert_eq!(bad_backend.unwrap_err(), ConfigError::UnknownBackend("svn".to_string()));

    let bad_subdir = apply_config_updates(
        &config, None, None, None, None, None, None, None, Some("   "), None,
    );
    assert_eq!(bad_subdir.unwrap_err(), ConfigError::EmptySubdirectory);

    let bad_lfs = apply_config_updates(
        &config, None, None, None, None, Some(true), None, Some("hg"), None, None,
    );
    assert_eq!(bad_lfs.unwrap_err(), ConfigError::LfsRequiresGit);
}

#[test]
fn test_parse_csv() {
    let items = parse_csv(" a, b ,, c ");
    assert_eq!(items, vec!["a", "b", "c"]);
    assert!(parse_csv("  ,  ,").is_empty());
}

#[test]
fn test_sanitize_device_name() {
    assert_eq!(sanitize_device_name("My MacBook Pro"), "My-MacBook-Pro");
    assert_eq!(sanitize_device_name("host_1"), "host_1");
    assert_eq!(sanitize_device_name("--weird--name--"), "weird-name");
    assert_eq!(sanitize_device_name("日本語ホスト"), "");
}
