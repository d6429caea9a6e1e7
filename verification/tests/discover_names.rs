use mdwright::discover::{is_markdown, is_markdown_extension, is_skip_dir};

#[test]
fn skip_dirs_are_build_and_cache_directories() {
    for name in ["target", "node_modules", ".venv", ".lake", ".ruff_cache", ".pytest_cache", ".cargo"] {
        assert!(is_skip_dir(name), "{name}");
    }
    for name in ["src", "docs", "targets", ".git", ""] {
        assert!(!is_skip_dir(name), "{name}");
    }
}

#[test]
fn markdown_extensions() {
    assert!(is_markdown_extension(Some("md")));
    assert!(is_markdown_extension(Some("markdown")));
    assert!(!is_markdown_extension(Some("MD")));
    assert!(!is_markdown_extension(Some("txt")));
    assert!(!is_markdown_extension(None));
}

#[test]
fn markdown_paths_by_extension() {
    assert!(is_markdown("a.md"));
    assert!(is_markdown("docs/guide/b.markdown"));
    assert!(!is_markdown("c.txt"));
    assert!(!is_markdown("README"));
    // A leading dot alone starts a hidden name, not an extension.
    assert!(!is_markdown(".md"));
    assert!(is_markdown("notes/.hidden.md"));
}
