use dephell::reputation::{
    activity_window_start, crates_io_dependents_request, crates_io_request, captured_repo,
    get_active_maintainers, get_crates_io_last_updated, github_commits_request,
    github_repo_name, github_repo_request,
};

fn texts(list: &[&str]) -> Vec<String> {
    list.iter().map(|s| s.to_string()).collect()
}

#[test]
fn repository_name_is_found_in_github_addresses() {
    assert_eq!(
        github_repo_name("https://github.com/mimoo/cargo-dephell"),
        Some("mimoo/cargo-dephell".to_string())
    );
    assert_eq!(
        github_repo_name("https://github.com/serde-rs/json.git"),
        Some("serde-rs/json.git".to_string())
    );
    assert_eq!(
        github_repo_name("git+https://github.com/a_b/c.d/tree/master#readme"),
        Some("a_b/c.d".to_string())
    );
    assert_eq!(github_repo_name("https://github.com/alone github.com/x/y"), Some("x/y".to_string()));
    assert_eq!(github_repo_name("https://github.com//"), Some("/".to_string()));
    assert_eq!(github_repo_name("https://gitlab.com/owner/name"), None);
    assert_eq!(github_repo_name("https://github.com/"), None);
    assert_eq!(github_repo_name(""), None);
}

#[test]
fn a_capture_names_a_repository_where_it_holds_one() {
    assert_eq!(captured_repo(Some(Some("a/b".to_string()))), Some("a/b".to_string()));
    assert_eq!(captured_repo(Some(None)), None);
    assert_eq!(captured_repo(None), None);
}

#[test]
fn requests_name_the_right_addresses() {
    assert_eq!(github_repo_request("serde-rs/json.git"), "https://api.github.com/repos/serde-rs/json");
    assert_eq!(github_repo_request("a/b.git.git"), "https://api.github.com/repos/a/b");
    assert_eq!(github_repo_request("a/b.gitx"), "https://api.github.com/repos/a/b.gitx");
    assert_eq!(github_repo_request(".git"), "https://api.github.com/repos/");
    assert_eq!(github_repo_request("a/b"), "https://api.github.com/repos/a/b");
    assert_eq!(
        github_commits_request("a/b.git", "2020-01-01T00:00:00Z"),
        "https://api.github.com/repos/a/b/commits?since=2020-01-01T00:00:00Z"
    );
    assert_eq!(
        crates_io_dependents_request("serde"),
        "https://crates.io/api/v1/crates/serde/reverse_dependencies"
    );
    assert_eq!(crates_io_request("serde"), "https://crates.io/api/v1/crates/serde");
}

#[test]
fn activity_window_is_twenty_four_weeks() {
    // 1592352000 is 2020-06-17T00:00:00Z, and twenty-four weeks before it the year began
    assert_eq!(activity_window_start(1592352000), Some("2020-01-01T00:00:00Z".to_string()));
    assert_eq!(activity_window_start(14515200), Some("1970-01-01T00:00:00Z".to_string()));
    assert_eq!(activity_window_start(14515199), Some("1969-12-31T23:59:59Z".to_string()));
    assert_eq!(activity_window_start(i64::MIN), None);
    assert_eq!(activity_window_start(i64::MAX), None);
}

#[test]
fn last_update_is_given_as_a_day() {
    assert_eq!(
        get_crates_io_last_updated("2020-02-29T23:59:59.123456+00:00"),
        Some("2020-02-29".to_string())
    );
    assert_eq!(
        get_crates_io_last_updated("2019-12-31T23:30:00-05:00"),
        Some("2019-12-31".to_string())
    );
    assert_eq!(get_crates_io_last_updated("yesterday"), None);
    assert_eq!(get_crates_io_last_updated("2020-02-30T00:00:00Z"), None);
    assert_eq!(get_crates_io_last_updated(""), None);
}

#[test]
fn contributors_are_counted_once_each() {
    assert_eq!(get_active_maintainers(&texts(&["a@x.org", "b@x.org", "a@x.org"])), 2);
    assert_eq!(get_active_maintainers(&texts(&["a@x.org", "A@x.org"])), 2);
    assert_eq!(get_active_maintainers(&texts(&["", ""])), 1);
    assert_eq!(get_active_maintainers(&texts(&[])), 0);
}
