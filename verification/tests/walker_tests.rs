use vimsnitch::gitignore::Gitignore;

#[test]
fn walker_skips_version_control_entries() {
    let mut g = Gitignore::new("/repo", "");
    assert!(!g.consider_entry("/repo/.git".to_string(), true));
    assert!(!g.consider_entry("/repo/.gitignore".to_string(), false));
    assert!(g.get_files().is_empty());
}

#[test]
fn walker_prunes_excluded_directory() {
    let mut g = Gitignore::new("/repo", "node_modules/\n");
    assert!(!g.consider_entry("/repo/node_modules".to_string(), true));
    assert!(g.consider_entry("/repo/src".to_string(), true));
}

#[test]
fn walker_records_included_files_in_order() {
    let mut g = Gitignore::new("/repo", "*.log\n");
    assert!(!g.consider_entry("/repo/main.rs".to_string(), false));
    assert!(!g.consider_entry("/repo/app.log".to_string(), false));
    assert!(!g.consider_entry("/repo/lib.rs".to_string(), false));
    let files = g.get_files();
    assert_eq!(files, vec!["/repo/main.rs".to_string(), "/repo/lib.rs".to_string()]);
}

#[test]
fn walker_descend_only_for_directories() {
    let mut g = Gitignore::new("/repo", "");
    assert!(!g.consider_entry("/repo/file.rs".to_string(), false));
    assert!(g.consider_entry("/repo/dir".to_string(), true));
    let files = g.get_files();
    assert_eq!(files, vec!["/repo/file.rs".to_string()]);
}
