use gh_stack::browser::{build_pr_url, parse_github_host};

#[test]
fn test_parse_github_host_ssh() {
    assert_eq!(parse_github_host("git@github.com:owner/repo.git"), Some("https://github.com".to_string()));
}

#[test]
fn test_parse_github_host_ssh_no_suffix() {
    assert_eq!(parse_github_host("git@github.com:owner/repo"), Some("https://github.com".to_string()));
}

#[test]
fn test_parse_github_host_ssh_enterprise() {
    assert_eq!(
        parse_github_host("git@github.mycompany.com:org/repo.git"),
        Some("https://github.mycompany.com".to_string())
    );
}

#[test]
fn test_parse_github_host_https() {
    assert_eq!(parse_github_host("https://github.com/owner/repo.git"), Some("https://github.com".to_string()));
}

#[test]
fn test_parse_github_host_https_no_suffix() {
    assert_eq!(parse_github_host("https://github.com/owner/repo"), Some("https://github.com".to_string()));
}

#[test]
fn test_parse_github_host_https_enterprise() {
    assert_eq!(
        parse_github_host("https://github.mycompany.com/org/repo.git"),
        Some("https://github.mycompany.com".to_string())
    );
}

#[test]
fn test_parse_github_host_http() {
    assert_eq!(parse_github_host("http://github.com/owner/repo.git"), Some("http://github.com".to_string()));
}

#[test]
fn test_parse_github_host_invalid() {
    assert_eq!(parse_github_host("not-a-url"), None);
}

#[test]
fn test_parse_github_host_empty() {
    assert_eq!(parse_github_host(""), None);
}

#[test]
fn test_build_pr_url() {
    assert_eq!(
        build_pr_url("https://github.com", "owner/repo", "main", "feature"),
        "https://github.com/owner/repo/compare/main...feature?expand=1"
    );
}

#[test]
fn test_build_pr_url_enterprise() {
    assert_eq!(
        build_pr_url("https://github.mycompany.com", "org/repo", "develop", "my-branch"),
        "https://github.mycompany.com/org/repo/compare/develop...my-branch?expand=1"
    );
}

#[test]
fn test_build_pr_url_with_slashes_in_branch() {
    assert_eq!(
        build_pr_url("https://github.com", "owner/repo", "main", "feature/my-feature"),
        "https://github.com/owner/repo/compare/main...feature/my-feature?expand=1"
    );
}
