use stacked_pr::url::parse_github_url;

#[test]
fn url_plain() {
    let r = parse_github_url("https://github.com/o/r/pull/10");
    assert_eq!(r, Some(("o".to_string(), "r".to_string(), 10)));
}

#[test]
fn url_with_trailing_path() {
    let r = parse_github_url("https://github.com/owner/repo/pull/105/files");
    assert_eq!(r, Some(("owner".to_string(), "repo".to_string(), 105)));
}

#[test]
fn url_wrong_section() {
    assert_eq!(parse_github_url("https://github.com/o/r/issues/10"), None);
}

#[test]
fn url_missing_repo() {
    assert_eq!(parse_github_url("https://github.com/o/pull/5"), None);
}

#[test]
fn url_number_not_digits() {
    assert_eq!(parse_github_url("https://github.com/o/r/pull/abc"), None);
}

#[test]
fn url_number_too_large() {
    assert_eq!(parse_github_url("https://github.com/o/r/pull/99999999999"), None);
}
