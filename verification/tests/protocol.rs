use prbot::api::{
    check_status, encode_review_request, ApiError, Comment, HttpResponse, Method, Publisher,
    ReviewRequest,
};
use prbot::cli::{Cli, CliError, CommitArgs};
use prbot::message::{LogLevel, LogMessage};

fn msg(level: LogLevel, text: &str) -> LogMessage {
    LogMessage {
        level,
        message: text.to_owned(),
        title: None,
        file: Some("a.py".to_owned()),
        line: Some(12),
        end_line: None,
        col: None,
        end_col: None,
    }
}

fn ok(body: &str) -> HttpResponse {
    HttpResponse { status: 200, body: body.to_owned() }
}

const PR: &str = "https://git.example/api/v1/repos/me/repo/pulls/7";

const REVIEWS: &str = "[\
{\"id\":11,\"user\":{\"username\":\"bot\"}},\
{\"id\":12,\"user\":{\"username\":\"alice\"}},\
{\"id\":13,\"user\":{\"username\":\"bot\"}},\
{\"id\":14,\"user\":{\"username\":\"carol\"}}]";

#[test]
fn check_status_accepts_only_success() {
    assert!(check_status(200));
    assert!(check_status(204));
    assert!(!check_status(201));
    assert!(!check_status(404));
    assert!(!check_status(500));
}

#[test]
fn publish_deletes_bot_reviews_then_queries_and_submits() {
    let messages = vec![msg(LogLevel::Error, "syntax error")];
    let (mut p, req) = Publisher::start(
        PR.to_owned(),
        "bot".to_owned(),
        None,
        &messages,
        "",
        "",
        "",
    );
    assert_eq!(req.method, Method::Get);
    assert_eq!(req.url, format!("{PR}/reviews"));
    assert_eq!(req.body, None);

    // list -> first delete: only the bot's reviews, in order
    let req = p.step(ok(REVIEWS)).unwrap().unwrap();
    assert_eq!(req.method, Method::Delete);
    assert_eq!(req.url, format!("{PR}/reviews/11"));

    let req = p.step(HttpResponse { status: 204, body: String::new() }).unwrap().unwrap();
    assert_eq!(req.method, Method::Delete);
    assert_eq!(req.url, format!("{PR}/reviews/13"));

    // both deletes done -> no environment commit, so query the commits
    let req = p.step(HttpResponse { status: 204, body: String::new() }).unwrap().unwrap();
    assert_eq!(req.method, Method::Get);
    assert_eq!(req.url, format!("{PR}/commits"));

    // first commit wins
    let req = p
        .step(ok("[{\"sha\":\"abc123\"},{\"sha\":\"older\"}]"))
        .unwrap()
        .unwrap();
    assert_eq!(req.method, Method::Post);
    assert_eq!(req.url, format!("{PR}/reviews"));
    let posted = req.body.unwrap();

    // the posted document is real JSON with one comment per annotation
    let v: serde_json::Value = serde_json::from_str(&posted).unwrap();
    assert_eq!(v.get("commit_id").unwrap().as_str().unwrap(), "abc123");
    let comments = v.get("comments").unwrap().as_array().unwrap();
    assert_eq!(comments.len(), 1);
    assert_eq!(
        comments[0].get("body").unwrap().as_str().unwrap(),
        "> [!CAUTION]\n> syntax error"
    );
    assert_eq!(comments[0].get("path").unwrap().as_str().unwrap(), "a.py");
    assert_eq!(comments[0].get("new_position").unwrap().as_u64().unwrap(), 12);
    let report = v.get("body").unwrap().as_str().unwrap();
    assert!(report.starts_with("**Error Report from Gitea Actions"));

    // submission acknowledged: protocol is done, no further request
    assert_eq!(p.step(ok("")).unwrap(), None);
    assert_eq!(p.step(ok("")).unwrap(), None);
}

#[test]
fn publish_with_environment_commit_skips_the_query() {
    let messages = vec![msg(LogLevel::Debug, "d")];
    let (mut p, _req) = Publisher::start(
        PR.to_owned(),
        "bot".to_owned(),
        Some("envsha".to_owned()),
        &messages,
        "",
        "",
        "",
    );
    // no reviews at all: zero deletions is valid, submit at once
    let req = p.step(ok("[]")).unwrap().unwrap();
    assert_eq!(req.method, Method::Post);
    assert_eq!(req.url, format!("{PR}/reviews"));
    let v: serde_json::Value = serde_json::from_str(&req.body.unwrap()).unwrap();
    assert_eq!(v.get("commit_id").unwrap().as_str().unwrap(), "envsha");
    assert_eq!(p.step(ok("")).unwrap(), None);
}

#[test]
fn publish_aborts_on_bad_status() {
    let messages = vec![msg(LogLevel::Debug, "d")];
    let (mut p, _req) = Publisher::start(
        PR.to_owned(),
        "bot".to_owned(),
        None,
        &messages,
        "",
        "",
        "",
    );
    let e = p.step(HttpResponse { status: 500, body: "oops".to_owned() }).unwrap_err();
    assert_eq!(e, ApiError::UnexpectedStatus { status: 500, body: "oops".to_owned() });
}

#[test]
fn publish_rejects_malformed_review_lists() {
    let messages = vec![msg(LogLevel::Debug, "d")];
    let (mut p, _req) = Publisher::start(
        PR.to_owned(), "bot".to_owned(), None, &messages, "", "", "",
    );
    assert_eq!(p.step(ok("{}")).unwrap_err(), ApiError::InvalidJson);
    assert_eq!(p.step(ok("[{\"user\":{\"username\":\"bot\"}}]")).unwrap_err(), ApiError::MissingReviewId);
    assert_eq!(p.step(ok("[{\"id\":\"x\"}]")).unwrap_err(), ApiError::InvalidReviewId);
    assert_eq!(p.step(ok("[{\"id\":1}]")).unwrap_err(), ApiError::MissingReviewUser);
    assert_eq!(
        p.step(ok("[{\"id\":1,\"user\":{}}]")).unwrap_err(),
        ApiError::MissingReviewUsername
    );
    assert_eq!(
        p.step(ok("[{\"id\":1,\"user\":{\"username\":9}}]")).unwrap_err(),
        ApiError::InvalidReviewUsername
    );
}

#[test]
fn publish_rejects_an_empty_commit_list() {
    let messages = vec![msg(LogLevel::Debug, "d")];
    let (mut p, _req) = Publisher::start(
        PR.to_owned(), "bot".to_owned(), None, &messages, "", "", "",
    );
    p.step(ok("[]")).unwrap();
    assert_eq!(p.step(ok("[]")).unwrap_err(), ApiError::MissingCommitSha);
}

#[test]
fn commit_with_empty_cache_is_a_no_op() {
    let r = CommitArgs {}.commit(
        vec![],
        PR.to_owned(),
        "bot".to_owned(),
        None,
        "",
        "",
        "",
    );
    assert!(r.is_none());
}

#[test]
fn commit_with_messages_opens_the_protocol() {
    let r = CommitArgs {}.commit(
        vec![msg(LogLevel::Error, "x")],
        PR.to_owned(),
        "bot".to_owned(),
        None,
        "",
        "",
        "",
    );
    let (_p, req) = r.unwrap();
    assert_eq!(req.method, Method::Get);
    assert_eq!(req.url, format!("{PR}/reviews"));
}

#[test]
fn review_request_encodes_optional_comment_fields() {
    let r = ReviewRequest {
        body: "b".to_owned(),
        commit_id: "c".to_owned(),
        comments: vec![
            Comment { body: "one".to_owned(), path: None, new_position: None },
            Comment {
                body: "two \"quoted\"".to_owned(),
                path: Some("p.rs".to_owned()),
                new_position: Some(3),
            },
        ],
    };
    assert_eq!(
        encode_review_request(&r),
        "{\"body\":\"b\",\"commit_id\":\"c\",\"comments\":[{\"body\":\"one\"},{\"body\":\"two \\\"quoted\\\"\",\"path\":\"p.rs\",\"new_position\":3}]}"
    );
}

#[test]
fn pr_url_is_built_from_repo_and_number() {
    let cli = Cli {
        gitea: "https://git.example".to_owned(),
        user: "bot".to_owned(),
        token: "t".to_owned(),
        repo: "me/repo".to_owned(),
        number: Some(7),
        cache: "messages.cache".to_owned(),
        command: None,
    };
    assert_eq!(cli.pr_url().unwrap(), PR);
}

#[test]
fn pr_url_rejects_bad_configuration() {
    let mut cli = Cli {
        gitea: "https://git.example".to_owned(),
        user: "bot".to_owned(),
        token: "t".to_owned(),
        repo: "norepo".to_owned(),
        number: Some(7),
        cache: "c".to_owned(),
        command: None,
    };
    assert_eq!(cli.pr_url(), Err(CliError::InvalidRepo));
    cli.repo = "me/repo".to_owned();
    cli.number = None;
    assert_eq!(cli.pr_url(), Err(CliError::MissingNumber));
}

#[test]
fn pr_number_from_reference() {
    assert_eq!(prbot::cli::pr_number_from_ref("12/merge"), Ok(12));
    assert_eq!(prbot::cli::pr_number_from_ref("34"), Ok(34));
    assert_eq!(
        prbot::cli::pr_number_from_ref("abc/x"),
        Err(CliError::InvalidRef { gref: "abc/x".to_owned() })
    );
}

#[test]
fn publish_rejects_a_commit_without_text_sha() {
    let messages = vec![msg(LogLevel::Debug, "d")];
    let (mut p, _req) = Publisher::start(
        PR.to_owned(), "bot".to_owned(), None, &messages, "", "", "",
    );
    p.step(ok("[]")).unwrap();
    assert_eq!(p.step(ok("[{\"sha\":5}]")).unwrap_err(), ApiError::InvalidCommitSha);
}

#[test]
fn transition_rejects_a_response_nobody_waits_for() {
    let messages = vec![msg(LogLevel::Debug, "d")];
    let (mut p, _req) = Publisher::start(
        PR.to_owned(), "bot".to_owned(), None, &messages, "", "", "",
    );
    assert_eq!(
        p.transition(prbot::api::Event::Deleted).unwrap_err(),
        ApiError::UnexpectedEvent
    );
}

#[test]
fn delete_urls_render_large_ids() {
    let messages = vec![msg(LogLevel::Debug, "d")];
    let (mut p, _req) = Publisher::start(
        PR.to_owned(), "bot".to_owned(), None, &messages, "", "", "",
    );
    let req = p
        .step(ok("[{\"id\":18446744073709551615,\"user\":{\"username\":\"bot\"}}]"))
        .unwrap()
        .unwrap();
    assert_eq!(req.url, format!("{PR}/reviews/18446744073709551615"));
}

#[test]
fn severity_tokens_parse_exactly() {
    assert_eq!(LogLevel::from_str("debug"), Some(LogLevel::Debug));
    assert_eq!(LogLevel::from_str("notice"), Some(LogLevel::Notice));
    assert_eq!(LogLevel::from_str("warning"), Some(LogLevel::Warning));
    assert_eq!(LogLevel::from_str("error"), Some(LogLevel::Error));
    assert_eq!(LogLevel::from_str("Error"), None);
    assert_eq!(LogLevel::from_str(""), None);
}
