use claude_code_sync::platform::{
    cleanup_blank_lines, extract_current_platform_block, extract_platform_blocks,
    filter_for_platform, has_platform_blocks, merge_claude_md, resolve_shared_document, Platform,
};

#[test]
fn test_platform_from_tag_name() {
    assert_eq!(Platform::from_tag_name("macos"), Some(Platform::MacOS));
    assert_eq!(Platform::from_tag_name("mac"), Some(Platform::MacOS));
    assert_eq!(Platform::from_tag_name("darwin"), Some(Platform::MacOS));
    assert_eq!(Platform::from_tag_name("windows"), Some(Platform::Windows));
    assert_eq!(Platform::from_tag_name("win"), Some(Platform::Windows));
    assert_eq!(Platform::from_tag_name("linux"), Some(Platform::Linux));
    assert_eq!(Platform::from_tag_name("unknown"), None);
}

#[test]
fn test_filter_for_platform_macos() {
    let content = "# Common content\n\n## Environment\n\n<!-- platform:macos -->\n- Use fnm for node management\n- Homebrew path: /opt/homebrew/bin\n<!-- end-platform -->\n\n<!-- platform:windows -->\n- Use nvm-windows for node management\n- Use backslash for paths\n<!-- end-platform -->\n\n## Other common content\n";

    let filtered = filter_for_platform(content, Platform::MacOS);

    assert!(filtered.contains("Use fnm for node management"));
    assert!(filtered.contains("Homebrew path: /opt/homebrew/bin"));
    assert!(!filtered.contains("nvm-windows"));
    assert!(!filtered.contains("backslash"));
    assert!(filtered.contains("Common content"));
    assert!(filtered.contains("Other common content"));
}

#[test]
fn test_filter_for_platform_windows() {
    let content = "# Common\n\n<!-- platform:macos -->\nmacOS content\n<!-- end-platform -->\n\n<!-- platform:windows -->\nWindows content\n<!-- end-platform -->\n";

    let filtered = filter_for_platform(content, Platform::Windows);

    assert!(!filtered.contains("macOS content"));
    assert!(filtered.contains("Windows content"));
    assert!(filtered.contains("Common"));
}

#[test]
fn test_filter_preserves_content_without_tags() {
    let content = "# No platform tags\n\nJust regular content.";
    let filtered = filter_for_platform(content, Platform::MacOS);
    assert_eq!(filtered, content);
}

#[test]
fn test_has_platform_blocks() {
    assert!(has_platform_blocks("<!-- platform:macos -->\ncontent\n<!-- end-platform -->"));
    assert!(!has_platform_blocks("No platform blocks here"));
}

#[test]
fn test_extract_platform_blocks() {
    let content = "\n<!-- platform:macos -->\nMac content\n<!-- end-platform -->\n\n<!-- platform:windows -->\nWin content\n<!-- end-platform -->\n";

    let blocks = extract_platform_blocks(content);
    assert_eq!(blocks.len(), 2);
    assert_eq!(blocks[0].0, Platform::MacOS);
    assert!(blocks[0].1.contains("Mac content"));
    assert_eq!(blocks[1].0, Platform::Windows);
    assert!(blocks[1].1.contains("Win content"));
}

#[test]
fn test_cleanup_blank_lines() {
    let content = "line1\n\n\n\n\nline2";
    let cleaned = cleanup_blank_lines(content);
    assert_eq!(cleaned, "line1\n\nline2");
}

#[test]
fn test_merge_claude_md_preserves_target_platform() {
    let source = "# Common Content\n\n## Rules\n- Rule 1\n- Rule 2\n\n<!-- platform:macos -->\n- Use fnm for node\n<!-- end-platform -->\n";
    let target = "# Old Content\n\n<!-- platform:windows -->\n- Use nvm-windows for node\n<!-- end-platform -->\n";

    let merged = merge_claude_md(source, target, Platform::Windows);

    assert!(merged.contains("# Common Content"));
    assert!(merged.contains("- Rule 1"));
    assert!(merged.contains("- Rule 2"));
    assert!(!merged.contains("fnm"));
    assert!(merged.contains("<!-- platform:windows -->"));
    assert!(merged.contains("nvm-windows"));
    assert!(merged.contains("<!-- end-platform -->"));
}

#[test]
fn test_merge_claude_md_no_target_platform_block() {
    let source = "# Common\n<!-- platform:macos -->\nMac content\n<!-- end-platform -->\n";
    let target = "# Old content";

    let merged = merge_claude_md(source, target, Platform::Windows);

    assert!(merged.contains("# Common"));
    assert!(!merged.contains("Mac content"));
    assert!(!merged.contains("Old content"));
}

#[test]
fn test_extract_current_platform_block() {
    let content = "\n<!-- platform:macos -->\nMac content\n<!-- end-platform -->\n\n<!-- platform:windows -->\nWindows content\n<!-- end-platform -->\n";

    let mac_block = extract_current_platform_block(content, Platform::MacOS);
    assert!(mac_block.is_some());
    assert!(mac_block.as_ref().unwrap().contains("Mac content"));
    assert!(mac_block.as_ref().unwrap().contains("<!-- platform:macos -->"));

    let win_block = extract_current_platform_block(content, Platform::Windows);
    assert!(win_block.is_some());
    assert!(win_block.as_ref().unwrap().contains("Windows content"));

    let linux_block = extract_current_platform_block(content, Platform::Linux);
    assert!(linux_block.is_none());
}

#[test]
fn test_merge_shared_heading_and_foreign_block() {
    // the merge keeps the shared heading, keeps the target's own
    // platform block verbatim, and drops the source's foreign block
    let source = "# Shared heading\n\n<!-- platform:macos -->\nmac only line\n<!-- end-platform -->\n";
    let target = "<!-- platform:windows -->\nwin only line\n<!-- end-platform -->\n";

    let merged = merge_claude_md(source, target, Platform::Windows);

    assert!(merged.contains("# Shared heading"));
    assert!(merged.contains("<!-- platform:windows -->\nwin only line\n<!-- end-platform -->"));
    assert!(!merged.contains("mac only line"));
    // the only blocks left are for the current platform
    for (p, _body) in extract_platform_blocks(&merged) {
        assert_eq!(p, Platform::Windows);
    }
}

#[test]
fn test_tag_names_case_insensitive() {
    let content = "<!-- platform:MacOS -->\nMac content\n<!-- end-platform -->";
    assert!(has_platform_blocks(content));
    let blocks = extract_platform_blocks(content);
    assert_eq!(blocks.len(), 1);
    assert_eq!(blocks[0].0, Platform::MacOS);
    assert_eq!(Platform::MacOS.tag_name(), "macos");
}

#[test]
fn test_resolve_shared_document() {
    // no tagged block anywhere: the source is taken verbatim
    let plain_source = "# Notes\n\nNothing platform-bound.";
    let plain_target = "# Old notes";
    assert_eq!(
        resolve_shared_document(plain_source, plain_target, Platform::Linux),
        plain_source
    );
    // a tagged block on either side invokes the merge
    let tagged_target = "<!-- platform:linux -->\nkeep me\n<!-- end-platform -->";
    let resolved = resolve_shared_document(plain_source, tagged_target, Platform::Linux);
    assert!(resolved.contains("# Notes"));
    assert!(resolved.contains("keep me"));
    assert_eq!(
        resolved,
        merge_claude_md(plain_source, tagged_target, Platform::Linux)
    );
}
