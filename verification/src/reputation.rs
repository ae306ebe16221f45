//! What source hosts and the package registry say of a package: which
//! addresses to ask, and what to make of what they answer.
//!
//! Nothing here sends a request. A caller sends the request to the address
//! that a function of this module gives, reads the reply, and hands back
//! what the reply holds.

use crate::names::{distinct_names, distinct_texts, has_text, text_set};
use crate::record::text_of;
use std::fmt::Write;
use vstd::prelude::*;
use vstd::string::StringExecFns;

verus! {

/// `s` without any number of copies of `suffix` at its end.
pub open spec fn without_suffixes(s: Seq<char>, suffix: Seq<char>) -> Seq<char>
    decreases s.len(),
{
    if suffix.len() > 0 && s.len() >= suffix.len() && s.subrange(
        s.len() - suffix.len(),
        s.len() as int,
    ) == suffix {
        without_suffixes(s.subrange(0, s.len() - suffix.len()), suffix)
    } else {
        s
    }
}

/// `str::trim_end_matches` of std with a text as pattern: the text without
/// the copies of the pattern at its end, however many there are.
#[verifier::external_body]
fn trim_end<'a>(s: &'a str, suffix: &str) -> (r: &'a str)
    requires
        suffix@.len() > 0,
    ensures
        r@ == without_suffixes(s@, suffix@),
{
    s.trim_end_matches(suffix)
}

/// What the first match of the regular expression `pattern` in `text`
/// captured in its group `group`. The outer `None`: `pattern` is no regular
/// expression, or too large a one. The inner `None`: nothing matches, or
/// the group took no part in the match.
pub uninterp spec fn captured(pattern: Seq<char>, text: Seq<char>, group: nat) -> Option<
    Option<Seq<char>>,
>;

/// `Regex::new` of the crate regex, then `Regex::captures` and
/// `Captures::get`: the part of the text that the group captured in the
/// first match.
#[verifier::external_body]
fn capture(pattern: &str, text: &str, group: usize) -> (r: Option<Option<String>>)
    ensures
        match r {
            Some(part) => captured(pattern@, text@, group as nat) == Some(text_of(part)),
            None => captured(pattern@, text@, group as nat) is None,
        },
{
    match regex::Regex::new(pattern) {
        Ok(re) => Some(
            re.captures(text).and_then(|c| c.get(group)).map(|m| m.as_str().to_string()),
        ),
        Err(_) => None,
    }
}

/// The moment `seconds` seconds after the start of 1970, in universal time,
/// written as RFC 3339 demands, to the second and with `Z` for the zone.
/// `None` where the moment is beyond the dates that can be written.
pub uninterp spec fn rfc3339_of(seconds: i64) -> Option<Seq<char>>;

/// `DateTime::from_timestamp` of the crate chrono, then
/// `DateTime::to_rfc3339_opts` with whole seconds and `Z`.
#[verifier::external_body]
fn write_rfc3339(seconds: i64) -> (r: Option<String>)
    ensures
        text_of(r) == rfc3339_of(seconds),
{
    chrono::DateTime::from_timestamp(seconds, 0).map(
        |t| t.to_rfc3339_opts(chrono::SecondsFormat::Secs, true),
    )
}

/// The moment that `text` names in the way of RFC 3339, written in the
/// format `format` of strftime. `None` where `text` names no moment or
/// `format` is no format.
pub uninterp spec fn reformatted(text: Seq<char>, format: Seq<char>) -> Option<Seq<char>>;

/// `DateTime::parse_from_rfc3339` of the crate chrono, then
/// `DateTime::format`, written out.
#[verifier::external_body]
fn reformat(text: &str, format: &str) -> (r: Option<String>)
    ensures
        text_of(r) == reformatted(text@, format@),
{
    let moment = chrono::DateTime::parse_from_rfc3339(text).ok()?;
    let mut out = String::new();
    match write!(out, "{}", moment.format(format)) {
        Ok(()) => Some(out),
        Err(_) => None,
    }
}

/// The pattern that finds owner and name of a repository in an address at GitHub.
pub open spec fn github_pattern() -> Seq<char> {
    "github\\.com/([a-zA-Z0-9._-]*/[a-zA-Z0-9._-]*)"@
}

/// Owner and name of the repository at GitHub that `repo_url` names.
pub open spec fn github_repo_in(repo_url: Seq<char>) -> Option<Seq<char>> {
    match captured(github_pattern(), repo_url, 1) {
        Some(Some(name)) => Some(name),
        _ => None,
    }
}

/// What a capture says of a repository: the captured part, if there is one.
pub fn captured_repo(capture: Option<Option<String>>) -> (r: Option<String>)
    ensures
        r == match capture {
            Some(Some(name)) => Some(name),
            _ => None,
        },
{
    match capture {
        Some(Some(name)) => Some(name),
        _ => None,
    }
}

/// Owner and name of the repository, as in `owner/name`, where `repo_url`
/// is the address of a repository at GitHub.
pub fn github_repo_name(repo_url: &str) -> (r: Option<String>)
    ensures
        text_of(r) == github_repo_in(repo_url@),
{
    captured_repo(capture("github\\.com/([a-zA-Z0-9._-]*/[a-zA-Z0-9._-]*)", repo_url, 1))
}

/// The address that tells about the repository `repo` at GitHub.
pub fn github_repo_request(repo: &str) -> (url: String)
    ensures
        url@ == "https://api.github.com/repos/"@ + without_suffixes(repo@, ".git"@),
{
    proof {
        reveal_strlit(".git");
    }
    let name = trim_end(repo, ".git");
    String::from_str("https://api.github.com/repos/").concat(name)
}

/// The address that lists the commits to the repository `repo` at GitHub
/// since the moment `since`.
pub fn github_commits_request(repo: &str, since: &str) -> (url: String)
    ensures
        url@ == "https://api.github.com/repos/"@ + without_suffixes(repo@, ".git"@)
            + "/commits?since="@ + since@,
{
    proof {
        reveal_strlit(".git");
    }
    let name = trim_end(repo, ".git");
    String::from_str("https://api.github.com/repos/").concat(name).concat(
        "/commits?since=",
    ).concat(since)
}

/// The address that tells which packages of the registry depend on `crate_name`.
pub fn crates_io_dependents_request(crate_name: &str) -> (url: String)
    ensures
        url@ == "https://crates.io/api/v1/crates/"@ + crate_name@ + "/reverse_dependencies"@,
{
    String::from_str("https://crates.io/api/v1/crates/").concat(crate_name).concat(
        "/reverse_dependencies",
    )
}

/// The address that tells about the package `crate_name` of the registry.
pub fn crates_io_request(crate_name: &str) -> (url: String)
    ensures
        url@ == "https://crates.io/api/v1/crates/"@ + crate_name@,
{
    String::from_str("https://crates.io/api/v1/crates/").concat(crate_name)
}

/// Seconds in the twenty-four weeks that count as the last six months.
pub const ACTIVITY_WINDOW: i64 = 14515200;

/// The start of the last six months before `now`, as the moment to put
/// into `github_commits_request`. Both moments are in seconds since the
/// start of 1970.
pub fn activity_window_start(now: i64) -> (r: Option<String>)
    ensures
        text_of(r) == if now - ACTIVITY_WINDOW >= i64::MIN {
            rfc3339_of((now - ACTIVITY_WINDOW) as i64)
        } else {
            None
        },
{
    match now.checked_sub(ACTIVITY_WINDOW) {
        Some(start) => write_rfc3339(start),
        None => None,
    }
}

/// The day, as in `2020-02-29`, of the last update of a package, from the
/// moment of that update as the registry gives it in its reply to
/// `crates_io_request`. `None` where the text names no moment.
pub fn get_crates_io_last_updated(updated_at: &str) -> (r: Option<String>)
    ensures
        text_of(r) == reformatted(updated_at@, "%Y-%m-%d"@),
{
    reformat(updated_at, "%Y-%m-%d")
}

/// The number of people who contributed to a repository of late, from
/// the addresses of the authors of the commits that the source host lists
/// in its reply to `github_commits_request`: the number of different
/// addresses among them.
pub fn get_active_maintainers(emails: &Vec<String>) -> (r: u64)
    ensures
        text_set(emails@).finite(),
        r == text_set(emails@).len(),
{
    let different = distinct_names(emails);
    proof {
        lemma_distinct_count(different@);
    }
    different.len() as u64
}

/// A list without repetition holds as many texts as it is long.
pub proof fn lemma_distinct_count(list: Seq<String>)
    requires
        distinct_texts(list),
    ensures
        text_set(list).finite(),
        text_set(list).len() == list.len(),
{
    let views = list.map_values(|s: String| s@);
    assert(views.no_duplicates());
    views.unique_seq_to_set();
    assert(text_set(list) =~= views.to_set()) by {
        assert forall|t: Seq<char>| text_set(list).contains(t) <==> views.to_set().contains(t) by {
            if has_text(list, t) {
                let j = choose|j: int| 0 <= j < list.len() && (#[trigger] list[j])@ == t;
                assert(views[j] == t);
            }
            if views.to_set().contains(t) {
                let j = choose|j: int| 0 <= j < views.len() && views[j] == t;
                assert(list[j]@ == t);
            }
        }
    }
}

} // verus!
