use vimsnitch::gitissue::{check_statuses, get_owner_and_repo, GitIssue};

#[test]
fn new_builds_endpoint_and_header() {
    let issues = GitIssue::new("ms747", "vimsnitch", "SECRET-REDACTED");
    assert_eq!(issues.url().as_str(), "https://api.github.com/repos/ms747/vimsnitch/issues");
    assert_eq!(issues.token().as_str(), "token SECRET-REDACTED");
}

#[test]
fn check_statuses_accepts_all_expected() {
    assert_eq!(check_statuses(&vec![201, 201, 201], 201), None);
    assert_eq!(check_statuses(&vec![], 200), None);
}

#[test]
fn check_statuses_reports_first_failure() {
    assert_eq!(check_statuses(&vec![201, 404, 201], 201), Some(1));
    assert_eq!(check_statuses(&vec![500], 200), Some(0));
}

#[test]
fn owner_and_repo_come_from_the_remote_segments() {
    let segments = vec!["ms747", "vimsnitch.git"];
    let (owner, repo) = get_owner_and_repo(segments);
    assert_eq!(owner, "ms747");
    assert_eq!(repo, "vimsnitch".to_string());
}

#[test]
fn repo_without_dot_suffix_is_kept_whole() {
    let segments = vec!["someone", "project"];
    let (owner, repo) = get_owner_and_repo(segments);
    assert_eq!(owner, "someone");
    assert_eq!(repo, "project".to_string());
}
