use baton::watcher::is_relevant;

#[test]
fn only_markdown_triggers_a_reindex() {
    assert!(is_relevant("/w/projects/a/overview.md"));
    assert!(is_relevant("/w/AGENTS.MD"), "extension case");
}

#[test]
fn editor_and_vcs_noise_is_ignored() {
    for p in [
        "/w/.git/index",
        "/w/.git/refs/heads/main",
        "/w/projects/a/.DS_Store",
        "/w/projects/a/overview.md~",
        "/w/projects/a/overview.md.swp",
        "/w/notes.txt",
    ] {
        assert!(!is_relevant(p), "{p} should be ignored");
    }
}

#[test]
fn derived_files_do_not_trigger_a_reindex() {
    for p in ["/w/index.md", "/w/log.md", "/w/AGENTS.md"] {
        assert!(!is_relevant(p), "{p} should be ignored");
    }
}

#[test]
fn extensionless_paths_stay_relevant() {
    assert!(is_relevant("/w/projects/a"));
}

#[test]
fn a_dotfile_has_no_extension_and_a_directory_path_stays_relevant() {
    assert!(is_relevant("/w/.hidden"));
    assert!(is_relevant("/w/projects/"));
    assert!(!is_relevant("/w/projects/a/index.md"));
}
