//! Wire-level review objects and the publication protocol against the
//! pull-request API: replace the bot's previous reviews with exactly one
//! fresh review, anchored to the current head commit.
//!
//! The protocol is a linear state machine. It plans one HTTP request at
//! a time; the surrounding program performs the request and hands the
//! response back. Response bodies are JSON from the outside service and
//! are read through `serde_json`.

use vstd::prelude::*;
use vstd::string::*;

use crate::message::{spec_body, LogMessage, LogMessageView};
use crate::text::{push_char, spec_dec, str_eq, u64_to_string, usize_to_string};

verus! {

/// One annotation projected onto the review API.
#[derive(Debug, PartialEq, Eq)]
pub struct Comment {
    pub body: String,
    pub path: Option<String>,
    pub new_position: Option<usize>,
}

/// Mathematical value of one comment.
pub struct CommentView {
    pub body: Seq<char>,
    pub path: Option<Seq<char>>,
    pub new_position: Option<usize>,
}

impl View for Comment {
    type V = CommentView;

    open spec fn view(&self) -> CommentView {
        CommentView {
            body: self.body@,
            path: match self.path {
                Some(p) => Some(p@),
                None => None,
            },
            new_position: self.new_position,
        }
    }
}

impl DeepView for Comment {
    type V = CommentView;

    open spec fn deep_view(&self) -> CommentView {
        self.view()
    }
}

/// The review submitted to the API: a summary body, the commit it is
/// anchored to, and one comment per annotation.
#[derive(Debug, PartialEq, Eq)]
pub struct ReviewRequest {
    pub body: String,
    pub commit_id: String,
    pub comments: Vec<Comment>,
}

/// Mathematical value of a review request.
pub struct ReviewRequestView {
    pub body: Seq<char>,
    pub commit_id: Seq<char>,
    pub comments: Seq<CommentView>,
}

impl View for ReviewRequest {
    type V = ReviewRequestView;

    open spec fn view(&self) -> ReviewRequestView {
        ReviewRequestView {
            body: self.body@,
            commit_id: self.commit_id@,
            comments: self.comments.deep_view(),
        }
    }
}

/// An HTTP method the protocol uses.
#[derive(Clone, Copy, Debug, PartialEq, Eq, Structural)]
pub enum Method {
    Get,
    Delete,
    Post,
}

/// One planned HTTP request: the surrounding program performs it and
/// hands the response back.
#[derive(Debug, PartialEq, Eq)]
pub struct HttpRequest {
    pub method: Method,
    pub url: String,
    pub body: Option<String>,
}

/// Mathematical value of a planned request.
pub struct RequestView {
    pub method: Method,
    pub url: Seq<char>,
    pub body: Option<Seq<char>>,
}

impl View for HttpRequest {
    type V = RequestView;

    open spec fn view(&self) -> RequestView {
        RequestView {
            method: self.method,
            url: self.url@,
            body: match self.body {
                Some(b) => Some(b@),
                None => None,
            },
        }
    }
}

/// One HTTP response, as plain values.
#[derive(Debug)]
pub struct HttpResponse {
    pub status: u16,
    pub body: String,
}

/// The two response statuses the protocol accepts.
pub fn check_status(status: u16) -> (r: bool)
    ensures
        r == (status == 200 || status == 204),
{
    status == 200 || status == 204
}

/// The reviews endpoint of a pull request.
pub fn reviews_url(pr_url: &str) -> (r: String)
    ensures
        r@ == pr_url@ + "/reviews"@,
{
    let mut u = pr_url.to_owned();
    u.append("/reviews");
    u
}

/// The endpoint of one review of a pull request.
pub fn review_url(pr_url: &str, id: u64) -> (r: String)
    ensures
        r@ == pr_url@ + "/reviews/"@ + spec_dec(id as nat),
{
    let mut u = pr_url.to_owned();
    u.append("/reviews/");
    u.append(u64_to_string(id).as_str());
    u
}

/// The commits endpoint of a pull request.
pub fn commits_url(pr_url: &str) -> (r: String)
    ensures
        r@ == pr_url@ + "/commits"@,
{
    let mut u = pr_url.to_owned();
    u.append("/commits");
    u
}

#[verifier::external_type_specification]
#[verifier::external_body]
pub struct ExValue(serde_json::Value);

#[verifier::external_type_specification]
#[verifier::external_body]
pub struct ExJsonError(serde_json::Error);

/// Relies on `serde_json::from_str`: parses a JSON array document into
/// its top-level values; errs on anything else. The values are opaque.
#[verifier::external_body]
fn parse_value_array(s: &str) -> (r: Result<Vec<serde_json::Value>, serde_json::Error>) {
    serde_json::from_str::<Vec<serde_json::Value>>(s)
}

/// Relies on `serde_json::Value::get`: looks a key up in a JSON object;
/// `None` on a missing key or a non-object.
#[verifier::external_body]
fn value_get<'a>(v: &'a serde_json::Value, key: &str) -> (r: Option<&'a serde_json::Value>) {
    v.get(key)
}

/// Relies on `serde_json::Value::as_u64`: the value as an unsigned
/// integer, if it is one.
#[verifier::external_body]
fn value_as_u64(v: &serde_json::Value) -> (r: Option<u64>) {
    v.as_u64()
}

/// Relies on `serde_json::Value::as_str`: the value as text, if it is a
/// JSON string.
#[verifier::external_body]
fn value_as_string(v: &serde_json::Value) -> (r: Option<String>) {
    match v.as_str() {
        Some(s) => Some(s.to_owned()),
        None => None,
    }
}

/// Why a step of the publication protocol failed. Any failure aborts
/// the whole protocol; the cache is then left intact for a retry.
#[derive(Debug, PartialEq, Eq)]
pub enum ApiError {
    /// The service answered with a status other than 200 or 204.
    UnexpectedStatus { status: u16, body: String },
    /// A response body was not the expected JSON array.
    InvalidJson,
    /// A review object carries no id.
    MissingReviewId,
    /// A review id is not an unsigned integer.
    InvalidReviewId,
    /// A review object carries no user object.
    MissingReviewUser,
    /// A review's user object carries no username.
    MissingReviewUsername,
    /// A review username is not a string.
    InvalidReviewUsername,
    /// The commit list is empty or its first entry carries no sha.
    MissingCommitSha,
    /// A commit sha is not a string.
    InvalidCommitSha,
    /// The protocol was handed a response it did not wait for.
    UnexpectedEvent,
}

/// One review of the pull request, as the plain values the protocol
/// reads: its id and its author's username.
#[derive(Debug, PartialEq, Eq)]
pub struct ReviewEntry {
    pub id: u64,
    pub username: String,
}

/// Mathematical value of a review entry.
pub struct ReviewEntryView {
    pub id: u64,
    pub username: Seq<char>,
}

impl View for ReviewEntry {
    type V = ReviewEntryView;

    open spec fn view(&self) -> ReviewEntryView {
        ReviewEntryView { id: self.id, username: self.username@ }
    }
}

impl DeepView for ReviewEntry {
    type V = ReviewEntryView;

    open spec fn deep_view(&self) -> ReviewEntryView {
        self.view()
    }
}

/// Read id and author username out of every review object; the values
/// come from the outside service, so each field may be missing.
pub fn extract_reviews(values: &Vec<serde_json::Value>) -> (r: Result<Vec<ReviewEntry>, ApiError>)
    ensures
        r matches Ok(es) ==> es@.len() == values@.len(),
{
    let mut out: Vec<ReviewEntry> = Vec::new();
    let mut i: usize = 0;
    while i < values.len()
        invariant
            i <= values.len(),
            out@.len() == i,
        decreases values.len() - i,
    {
        let v = &values[i];
        let idv = match value_get(v, "id") {
            None => {
                return Err(ApiError::MissingReviewId);
            },
            Some(x) => x,
        };
        let id = match value_as_u64(idv) {
            None => {
                return Err(ApiError::InvalidReviewId);
            },
            Some(x) => x,
        };
        let userv = match value_get(v, "user") {
            None => {
                return Err(ApiError::MissingReviewUser);
            },
            Some(x) => x,
        };
        let namev = match value_get(userv, "username") {
            None => {
                return Err(ApiError::MissingReviewUsername);
            },
            Some(x) => x,
        };
        let username = match value_as_string(namev) {
            None => {
                return Err(ApiError::InvalidReviewUsername);
            },
            Some(x) => x,
        };
        out.push(ReviewEntry { id, username });
        i = i + 1;
    }
    Ok(out)
}

/// The sha of the first commit in the queried list: the latest commit.
/// An empty list, or a first entry without a sha, is an error.
pub fn first_commit_sha(values: &Vec<serde_json::Value>) -> (r: Result<String, ApiError>)
    ensures
        values@.len() == 0 ==> r is Err,
{
    if values.len() == 0 {
        return Err(ApiError::MissingCommitSha);
    }
    let shav = match value_get(&values[0], "sha") {
        None => {
            return Err(ApiError::MissingCommitSha);
        },
        Some(x) => x,
    };
    match value_as_string(shav) {
        None => Err(ApiError::InvalidCommitSha),
        Some(s) => Ok(s),
    }
}

/// The ids of exactly the entries authored by `user`, in list order.
pub open spec fn spec_bot_ids(entries: Seq<ReviewEntryView>, user: Seq<char>) -> Seq<u64>
    decreases entries.len()
{
    if entries.len() == 0 {
        Seq::empty()
    } else {
        spec_bot_ids(entries.drop_last(), user) + if entries.last().username == user {
            seq![entries.last().id]
        } else {
            Seq::empty()
        }
    }
}

/// Filter the reviews down to those authored by the bot username, by
/// exact match, keeping their ids in order.
pub fn review_ids_for_user(entries: &Vec<ReviewEntry>, user: &str) -> (r: Vec<u64>)
    ensures
        r@ == spec_bot_ids(entries.deep_view(), user@),
{
    let ghost dv = entries.deep_view();
    let mut out: Vec<u64> = Vec::new();
    let mut i: usize = 0;
    proof {
        assert(dv.subrange(0, 0) =~= Seq::<ReviewEntryView>::empty());
        assert(out@ =~= spec_bot_ids(dv.subrange(0, 0), user@));
    }
    while i < entries.len()
        invariant
            i <= entries.len(),
            dv == entries.deep_view(),
            dv.len() == entries.len(),
            out@ == spec_bot_ids(dv.subrange(0, i as int), user@),
        decreases entries.len() - i,
    {
        let ghost prefix = dv.subrange(0, i as int + 1);
        proof {
            assert(prefix.drop_last() =~= dv.subrange(0, i as int));
            assert(prefix.last() == dv[i as int]);
            assert(dv[i as int] == entries@[i as int].deep_view());
        }
        if str_eq(entries[i].username.as_str(), user) {
            out.push(entries[i].id);
            proof {
                assert(out@ =~= spec_bot_ids(dv.subrange(0, i as int), user@) + seq![dv[i as int].id]);
            }
        } else {
            proof {
                assert(spec_bot_ids(dv.subrange(0, i as int), user@) + Seq::<u64>::empty()
                    =~= spec_bot_ids(dv.subrange(0, i as int), user@));
            }
        }
        i = i + 1;
    }
    proof {
        assert(dv.subrange(0, dv.len() as int) =~= dv);
    }
    out
}

/// The selection is exact: the deleted ids are the ids of exactly the
/// entries whose author is `user` — every one of them, in order, and no
/// id of any other author.
pub proof fn lemma_bot_ids_exact(entries: Seq<ReviewEntryView>, user: Seq<char>)
    ensures
        spec_bot_ids(entries, user) == entries.filter(
            |e: ReviewEntryView| e.username == user,
        ).map_values(|e: ReviewEntryView| e.id),
    decreases entries.len(),
{
    reveal(Seq::filter);
    let pred = |e: ReviewEntryView| e.username == user;
    let pick = |e: ReviewEntryView| e.id;
    if entries.len() == 0 {
        assert(spec_bot_ids(entries, user) =~= entries.filter(pred).map_values(pick));
    } else {
        lemma_bot_ids_exact(entries.drop_last(), user);
        let fl = entries.drop_last().filter(pred);
        if pred(entries.last()) {
            assert(entries.filter(pred) == fl.push(entries.last()));
            assert(fl.push(entries.last()).map_values(pick) =~= fl.map_values(pick) + seq![
                entries.last().id,
            ]);
        } else {
            assert(spec_bot_ids(entries, user) =~= spec_bot_ids(entries.drop_last(), user));
        }
    }
}

/// One annotation's comment, as a mathematical value.
pub open spec fn spec_comment_of(m: LogMessageView) -> CommentView {
    CommentView {
        body: crate::message::LogMessage::spec_comment_body(m),
        path: m.file,
        new_position: m.line,
    }
}

/// One comment per annotation, in the annotations' order.
pub open spec fn spec_comments(msgs: Seq<LogMessageView>) -> Seq<CommentView> {
    msgs.map_values(|m: LogMessageView| spec_comment_of(m))
}

/// Project every annotation onto its review comment, in order.
pub fn comments_of(messages: &Vec<LogMessage>) -> (r: Vec<Comment>)
    ensures
        r.deep_view() == spec_comments(messages.deep_view()),
{
    let ghost dv = messages.deep_view();
    let mut out: Vec<Comment> = Vec::new();
    let mut i: usize = 0;
    while i < messages.len()
        invariant
            i <= messages.len(),
            dv == messages.deep_view(),
            dv.len() == messages.len(),
            out.deep_view() == spec_comments(dv.subrange(0, i as int)),
        decreases messages.len() - i,
    {
        let ghost before = out.deep_view();
        proof {
            assert(dv[i as int] == messages@[i as int].deep_view());
        }
        let c = messages[i].comment();
        out.push(c);
        proof {
            assert(out.deep_view() =~= before.push(c@));
            assert(before.push(c@) =~= spec_comments(dv.subrange(0, i as int + 1)));
        }
        i = i + 1;
    }
    proof {
        assert(dv.subrange(0, dv.len() as int) =~= dv);
    }
    out
}

/// Hexadecimal digit of `d`.
pub open spec fn spec_hex_digit(d: nat) -> char {
    if d == 0 { '0' }
    else if d == 1 { '1' }
    else if d == 2 { '2' }
    else if d == 3 { '3' }
    else if d == 4 { '4' }
    else if d == 5 { '5' }
    else if d == 6 { '6' }
    else if d == 7 { '7' }
    else if d == 8 { '8' }
    else if d == 9 { '9' }
    else if d == 10 { 'a' }
    else if d == 11 { 'b' }
    else if d == 12 { 'c' }
    else if d == 13 { 'd' }
    else if d == 14 { 'e' }
    else { 'f' }
}

/// JSON escape of one character: quote, backslash, the named control
/// escapes, and the numeric form for the other control characters.
pub open spec fn esc_json_char(c: char) -> Seq<char> {
    if c == '"' {
        seq!['\\', '"']
    } else if c == '\\' {
        seq!['\\', '\\']
    } else if c == '\n' {
        seq!['\\', 'n']
    } else if c == '\r' {
        seq!['\\', 'r']
    } else if c == '\t' {
        seq!['\\', 't']
    } else if (c as nat) < 32 {
        seq!['\\', 'u', '0', '0', spec_hex_digit((c as nat) / 16), spec_hex_digit((c as nat) % 16)]
    } else {
        seq![c]
    }
}

/// JSON escape of a whole text, character by character.
pub open spec fn esc_json(s: Seq<char>) -> Seq<char>
    decreases s.len()
{
    if s.len() == 0 {
        Seq::empty()
    } else {
        esc_json_char(s.first()) + esc_json(s.drop_first())
    }
}

/// Appending one character to the text appends its escape.
proof fn lemma_esc_json_push(s: Seq<char>, c: char)
    ensures
        esc_json(s.push(c)) == esc_json(s) + esc_json_char(c),
    decreases s.len(),
{
    if s.len() == 0 {
        assert(s.push(c).drop_first() =~= Seq::<char>::empty());
        assert(s.push(c).first() == c);
        assert(esc_json(s.push(c)) == esc_json_char(c) + esc_json(Seq::<char>::empty()));
        assert(esc_json_char(c) + Seq::<char>::empty() =~= esc_json_char(c));
        assert(esc_json(s) + esc_json_char(c) =~= esc_json_char(c));
    } else {
        lemma_esc_json_push(s.drop_first(), c);
        assert(s.push(c).drop_first() =~= s.drop_first().push(c));
        assert(s.push(c).first() == s.first());
        assert(esc_json_char(s.first()) + (esc_json(s.drop_first()) + esc_json_char(c))
            =~= (esc_json_char(s.first()) + esc_json(s.drop_first())) + esc_json_char(c));
    }
}

/// A quoted, JSON-escaped string.
pub open spec fn enc_jstr(s: Seq<char>) -> Seq<char> {
    seq!['"'] + esc_json(s) + seq!['"']
}

fn hex_digit_char(d: usize) -> (c: char)
    requires
        d < 16,
    ensures
        c == spec_hex_digit(d as nat),
{
    match d {
        0 => '0',
        1 => '1',
        2 => '2',
        3 => '3',
        4 => '4',
        5 => '5',
        6 => '6',
        7 => '7',
        8 => '8',
        9 => '9',
        10 => 'a',
        11 => 'b',
        12 => 'c',
        13 => 'd',
        14 => 'e',
        _ => 'f',
    }
}

/// Write a quoted, JSON-escaped string onto `out`.
fn write_json_string(out: &mut String, s: &str)
    ensures
        final(out)@ == old(out)@ + enc_jstr(s@),
{
    let ghost start = out@;
    push_char(out, '"');
    let n = s.unicode_len();
    let mut i: usize = 0;
    proof {
        assert(s@.subrange(0, 0) =~= Seq::<char>::empty());
        assert(out@ =~= start + seq!['"'] + esc_json(s@.subrange(0, 0)));
    }
    while i < n
        invariant
            n == s@.len(),
            i <= n,
            out@ == start + seq!['"'] + esc_json(s@.subrange(0, i as int)),
        decreases n - i,
    {
        let c = s.get_char(i);
        proof {
            lemma_esc_json_push(s@.subrange(0, i as int), c);
            assert(s@.subrange(0, i as int).push(c) =~= s@.subrange(0, i as int + 1));
        }
        if c == '"' || c == '\\' {
            push_char(out, '\\');
            push_char(out, c);
        } else if c == '\n' {
            push_char(out, '\\');
            push_char(out, 'n');
        } else if c == '\r' {
            push_char(out, '\\');
            push_char(out, 'r');
        } else if c == '\t' {
            push_char(out, '\\');
            push_char(out, 't');
        } else if (c as u32) < 32 {
            let v = c as u32;
            push_char(out, '\\');
            push_char(out, 'u');
            push_char(out, '0');
            push_char(out, '0');
            push_char(out, hex_digit_char((v / 16) as usize));
            push_char(out, hex_digit_char((v % 16) as usize));
        } else {
            push_char(out, c);
        }
        proof {
            assert(out@ =~= start + seq!['"'] + esc_json(s@.subrange(0, i as int + 1)));
        }
        i = i + 1;
    }
    push_char(out, '"');
    proof {
        assert(s@.subrange(0, n as int) =~= s@);
        assert(out@ =~= start + enc_jstr(s@));
    }
}

/// One comment as its JSON object; absent fields are omitted.
pub open spec fn enc_comment(c: CommentView) -> Seq<char> {
    "{\"body\":"@ + enc_jstr(c.body) + (match c.path {
        Some(p) => ",\"path\":"@ + enc_jstr(p),
        None => Seq::<char>::empty(),
    }) + (match c.new_position {
        Some(n) => ",\"new_position\":"@ + spec_dec(n as nat),
        None => Seq::<char>::empty(),
    }) + seq!['}']
}

/// The comma-separated encodings of the comments.
pub open spec fn enc_comment_list(cs: Seq<CommentView>) -> Seq<char>
    decreases cs.len()
{
    if cs.len() == 0 {
        Seq::empty()
    } else if cs.len() == 1 {
        enc_comment(cs[0])
    } else {
        enc_comment_list(cs.drop_last()) + seq![','] + enc_comment(cs.last())
    }
}

/// The JSON body submitted to the review endpoint: the summary body,
/// the commit the review is anchored to, and the comment array.
pub open spec fn spec_review_json(r: ReviewRequestView) -> Seq<char> {
    "{\"body\":"@ + enc_jstr(r.body) + ",\"commit_id\":"@ + enc_jstr(r.commit_id)
        + ",\"comments\":["@ + enc_comment_list(r.comments) + seq![']', '}']
}

/// Write one comment object onto `out`.
fn write_comment(out: &mut String, c: &Comment)
    ensures
        final(out)@ == old(out)@ + enc_comment(c@),
{
    let ghost start = out@;
    out.append("{\"body\":");
    write_json_string(out, c.body.as_str());
    match &c.path {
        Some(p) => {
            out.append(",\"path\":");
            write_json_string(out, p.as_str());
        },
        None => {},
    }
    match &c.new_position {
        Some(n) => {
            out.append(",\"new_position\":");
            out.append(usize_to_string(*n).as_str());
        },
        None => {},
    }
    push_char(out, '}');
    proof {
        assert(out@ =~= start + enc_comment(c@));
    }
}

/// Serialize a review request as the JSON document the service takes.
pub fn encode_review_request(r: &ReviewRequest) -> (s: String)
    ensures
        s@ == spec_review_json(r@),
{
    encode_review_parts(r.body.as_str(), r.commit_id.as_str(), &r.comments)
}

/// Serialize the parts of a review request as its JSON document.
pub fn encode_review_parts(body: &str, commit_id: &str, comments: &Vec<Comment>) -> (s: String)
    ensures
        s@ == spec_review_json(
            ReviewRequestView {
                body: body@,
                commit_id: commit_id@,
                comments: comments.deep_view(),
            },
        ),
{
    let ghost cv = comments.deep_view();
    let mut out = "{\"body\":".to_owned();
    write_json_string(&mut out, body);
    out.append(",\"commit_id\":");
    write_json_string(&mut out, commit_id);
    out.append(",\"comments\":[");
    let ghost head = out@;
    let mut i: usize = 0;
    proof {
        assert(cv.subrange(0, 0) =~= Seq::<CommentView>::empty());
        assert(out@ =~= head + enc_comment_list(cv.subrange(0, 0)));
    }
    while i < comments.len()
        invariant
            i <= comments.len(),
            cv == comments.deep_view(),
            cv.len() == comments.len(),
            out@ == head + enc_comment_list(cv.subrange(0, i as int)),
        decreases comments.len() - i,
    {
        if i > 0 {
            push_char(&mut out, ',');
        }
        write_comment(&mut out, &comments[i]);
        proof {
            let prefix = cv.subrange(0, i as int + 1);
            assert(prefix.drop_last() =~= cv.subrange(0, i as int));
            assert(prefix.last() == cv[i as int]);
            assert(cv[i as int] == comments@[i as int].deep_view());
            if i == 0 {
                assert(prefix.len() == 1);
                assert(prefix[0] == prefix.last());
            }
            assert(out@ =~= head + enc_comment_list(prefix));
        }
        i = i + 1;
    }
    push_char(&mut out, ']');
    push_char(&mut out, '}');
    proof {
        assert(cv.subrange(0, cv.len() as int) =~= cv);
        assert(out@ =~= spec_review_json(
            ReviewRequestView {
                body: body@,
                commit_id: commit_id@,
                comments: comments.deep_view(),
            },
        ));
    }
    out
}

/// Where the protocol stands: which response it is waiting for. The
/// deletion bookkeeping lives beside it in the `Publisher`.
#[derive(Clone, Copy, Debug, PartialEq, Eq, Structural)]
pub enum Phase {
    /// Waiting for the review list.
    AwaitReviews,
    /// Deleting the bot's old reviews, one at a time.
    Deleting,
    /// Waiting for the commit list, to resolve the latest commit.
    AwaitCommits,
    /// Waiting for the submission's answer.
    AwaitSubmit,
    /// The review is published.
    Done,
}

/// What a response was interpreted into, as plain values.
#[derive(Debug)]
pub enum Event {
    /// The review list, as id and author pairs.
    Reviews(Vec<ReviewEntry>),
    /// One delete was acknowledged.
    Deleted,
    /// The latest commit was resolved to this identifier.
    CommitId(String),
    /// The submission was acknowledged.
    Submitted,
}

/// Mathematical value of an event.
pub enum EventView {
    Reviews(Seq<ReviewEntryView>),
    Deleted,
    CommitId(Seq<char>),
    Submitted,
}

impl View for Event {
    type V = EventView;

    open spec fn view(&self) -> EventView {
        match self {
            Event::Reviews(es) => EventView::Reviews(es.deep_view()),
            Event::Deleted => EventView::Deleted,
            Event::CommitId(s) => EventView::CommitId(s@),
            Event::Submitted => EventView::Submitted,
        }
    }
}

/// The publication protocol: replaces the bot's previous reviews on one
/// pull request with exactly one fresh review. While deleting,
/// `ids[..next]` are acknowledged and the delete of `ids[next]`, when in
/// range, is under way.
#[derive(Debug)]
pub struct Publisher {
    pub pr_url: String,
    pub user: String,
    pub env_sha: Option<String>,
    pub body: String,
    pub comments: Vec<Comment>,
    pub phase: Phase,
    pub ids: Vec<u64>,
    pub next: usize,
}

/// Mathematical value of the protocol state.
pub struct PublisherView {
    pub pr_url: Seq<char>,
    pub user: Seq<char>,
    pub env_sha: Option<Seq<char>>,
    pub body: Seq<char>,
    pub comments: Seq<CommentView>,
    pub phase: Phase,
    pub ids: Seq<u64>,
    pub next: int,
}

impl View for Publisher {
    type V = PublisherView;

    open spec fn view(&self) -> PublisherView {
        PublisherView {
            pr_url: self.pr_url@,
            user: self.user@,
            env_sha: match self.env_sha {
                Some(s) => Some(s@),
                None => None,
            },
            body: self.body@,
            comments: self.comments.deep_view(),
            phase: self.phase,
            ids: self.ids@,
            next: self.next as int,
        }
    }
}

/// The request submitting the review anchored to `sha`.
pub open spec fn spec_submit_request(p: PublisherView, sha: Seq<char>) -> RequestView {
    RequestView {
        method: Method::Post,
        url: p.pr_url + "/reviews"@,
        body: Some(
            spec_review_json(
                ReviewRequestView { body: p.body, commit_id: sha, comments: p.comments },
            ),
        ),
    }
}

/// The request deleting the review `id`.
pub open spec fn spec_delete_request(p: PublisherView, id: u64) -> RequestView {
    RequestView {
        method: Method::Delete,
        url: p.pr_url + "/reviews/"@ + spec_dec(id as nat),
        body: None,
    }
}

/// The request querying the pull request's commits.
pub open spec fn spec_commits_request(p: PublisherView) -> RequestView {
    RequestView { method: Method::Get, url: p.pr_url + "/commits"@, body: None }
}

/// After the deletions acknowledged so far, what the protocol does next:
/// the next delete, or — all deletions done — the submission, against
/// the environment-supplied commit when present and otherwise after
/// querying the commit list.
pub open spec fn spec_advance(p: PublisherView) -> (PublisherView, Option<RequestView>) {
    if p.next < p.ids.len() {
        (p, Some(spec_delete_request(p, p.ids[p.next])))
    } else {
        match p.env_sha {
            Some(sha) => (
                PublisherView { phase: Phase::AwaitSubmit, ..p },
                Some(spec_submit_request(p, sha)),
            ),
            None => (
                PublisherView { phase: Phase::AwaitCommits, ..p },
                Some(spec_commits_request(p)),
            ),
        }
    }
}

/// The protocol's transition relation: from a state and an interpreted
/// response, the next state and the next planned request; `Err` is a
/// response the state was not waiting for.
pub open spec fn spec_transition(p: PublisherView, ev: EventView) -> Result<
    (PublisherView, Option<RequestView>),
    (),
> {
    match (p.phase, ev) {
        (Phase::AwaitReviews, EventView::Reviews(entries)) => Ok(
            spec_advance(
                PublisherView {
                    phase: Phase::Deleting,
                    ids: spec_bot_ids(entries, p.user),
                    next: 0,
                    ..p
                },
            ),
        ),
        (Phase::Deleting, EventView::Deleted) => if p.next < p.ids.len() {
            Ok(spec_advance(PublisherView { next: p.next + 1, ..p }))
        } else {
            Err(())
        },
        (Phase::AwaitCommits, EventView::CommitId(sha)) => Ok(
            (
                PublisherView { phase: Phase::AwaitSubmit, ..p },
                Some(spec_submit_request(p, sha)),
            ),
        ),
        (Phase::AwaitSubmit, EventView::Submitted) => Ok(
            (PublisherView { phase: Phase::Done, ..p }, None),
        ),
        _ => Err(()),
    }
}

impl Publisher {
    /// Open the protocol: the state waiting for the review list, and the
    /// request listing the reviews. The review to submit carries the
    /// formatter's body and one comment per accumulated annotation.
    pub fn start(
        pr_url: String,
        user: String,
        env_sha: Option<String>,
        messages: &Vec<LogMessage>,
        server_url: &str,
        repo: &str,
        run_id: &str,
    ) -> (r: (Publisher, HttpRequest))
        ensures
            r.0@.phase == Phase::AwaitReviews,
            r.0@.pr_url == pr_url@,
            r.0@.user == user@,
            r.0@.env_sha == (match env_sha {
                Some(s) => Some(s@),
                None => None::<Seq<char>>,
            }),
            r.0@.body == spec_body(messages.deep_view(), server_url@, repo@, run_id@),
            r.0@.comments == spec_comments(messages.deep_view()),
            r.0@.comments.len() == messages.deep_view().len(),
            r.1@.method == Method::Get,
            r.1@.url == pr_url@ + "/reviews"@,
            r.1@.body is None,
    {
        let req = HttpRequest {
            method: Method::Get,
            url: reviews_url(pr_url.as_str()),
            body: None,
        };
        let body = crate::message::body(messages, server_url, repo, run_id);
        let comments = comments_of(messages);
        let p = Publisher {
            pr_url,
            user,
            env_sha,
            body,
            comments,
            phase: Phase::AwaitReviews,
            ids: Vec::new(),
            next: 0,
        };
        (p, req)
    }

    /// Plan what follows the deletions acknowledged so far.
    fn advance(&mut self) -> (r: Option<HttpRequest>)
        ensures
            spec_advance(old(self)@) == (
                final(self)@,
                match r {
                    Some(q) => Some(q@),
                    None => None::<RequestView>,
                },
            ),
    {
        if self.next < self.ids.len() {
            let id = self.ids[self.next];
            Some(
                HttpRequest {
                    method: Method::Delete,
                    url: review_url(self.pr_url.as_str(), id),
                    body: None,
                },
            )
        } else {
            match &self.env_sha {
                Some(sha) => {
                    let req = HttpRequest {
                        method: Method::Post,
                        url: reviews_url(self.pr_url.as_str()),
                        body: Some(
                            encode_review_parts(
                                self.body.as_str(),
                                sha.as_str(),
                                &self.comments,
                            ),
                        ),
                    };
                    self.phase = Phase::AwaitSubmit;
                    Some(req)
                },
                None => {
                    self.phase = Phase::AwaitCommits;
                    Some(
                        HttpRequest {
                            method: Method::Get,
                            url: commits_url(self.pr_url.as_str()),
                            body: None,
                        },
                    )
                },
            }
        }
    }

    /// Feed one interpreted response into the protocol; the result is
    /// the next request to perform, or nothing when the review stands.
    pub fn transition(&mut self, ev: Event) -> (r: Result<Option<HttpRequest>, ApiError>)
        ensures
            match r {
                Ok(req) => spec_transition(old(self)@, ev@) == Ok::<_, ()>(
                    (
                        final(self)@,
                        match req {
                            Some(q) => Some(q@),
                            None => None::<RequestView>,
                        },
                    ),
                ),
                Err(e) => spec_transition(old(self)@, ev@) is Err && final(self)@ == old(self)@
                    && e == ApiError::UnexpectedEvent,
            },
    {
        match ev {
            Event::Reviews(entries) => match self.phase {
                Phase::AwaitReviews => {
                    self.ids = review_ids_for_user(&entries, self.user.as_str());
                    self.next = 0;
                    self.phase = Phase::Deleting;
                    Ok(self.advance())
                },
                _ => Err(ApiError::UnexpectedEvent),
            },
            Event::Deleted => match self.phase {
                Phase::Deleting => {
                    if self.next < self.ids.len() {
                        self.next = self.next + 1;
                        Ok(self.advance())
                    } else {
                        Err(ApiError::UnexpectedEvent)
                    }
                },
                _ => Err(ApiError::UnexpectedEvent),
            },
            Event::CommitId(sha) => match self.phase {
                Phase::AwaitCommits => {
                    let req = HttpRequest {
                        method: Method::Post,
                        url: reviews_url(self.pr_url.as_str()),
                        body: Some(
                            encode_review_parts(
                                self.body.as_str(),
                                sha.as_str(),
                                &self.comments,
                            ),
                        ),
                    };
                    self.phase = Phase::AwaitSubmit;
                    Ok(Some(req))
                },
                _ => Err(ApiError::UnexpectedEvent),
            },
            Event::Submitted => match self.phase {
                Phase::AwaitSubmit => {
                    self.phase = Phase::Done;
                    Ok(None)
                },
                _ => Err(ApiError::UnexpectedEvent),
            },
        }
    }

    /// Interpret one raw response by the waiting phase and step the
    /// protocol. A status other than 200 or 204 is immediately fatal; a
    /// finished protocol takes no further response. What the protocol
    /// will publish — body and comments — never changes.
    pub fn step(&mut self, resp: HttpResponse) -> (r: Result<Option<HttpRequest>, ApiError>)
        ensures
            final(self)@.pr_url == old(self)@.pr_url,
            final(self)@.user == old(self)@.user,
            final(self)@.env_sha == old(self)@.env_sha,
            final(self)@.body == old(self)@.body,
            final(self)@.comments == old(self)@.comments,
            old(self)@.phase == Phase::Done ==> final(self)@ == old(self)@ && (r matches Ok(q)
                && q is None),
            old(self)@.phase != Phase::Done && resp.status != 200 && resp.status != 204 ==> final(self)@ == old(self)@ && (r matches Err(e) && e == (ApiError::UnexpectedStatus {
                status: resp.status,
                body: resp.body,
            })),
            old(self)@.phase == Phase::Deleting && (resp.status == 200 || resp.status == 204)
                ==> (match r {
                Ok(req) => spec_transition(old(self)@, EventView::Deleted) == Ok::<_, ()>(
                    (
                        final(self)@,
                        match req {
                            Some(q) => Some(q@),
                            None => None::<RequestView>,
                        },
                    ),
                ),
                Err(e) => spec_transition(old(self)@, EventView::Deleted) is Err && final(self)@
                    == old(self)@,
            }),
            old(self)@.phase == Phase::AwaitSubmit && (resp.status == 200 || resp.status == 204)
                ==> (r matches Ok(q) && q is None && final(self)@ == (PublisherView {
                phase: Phase::Done,
                ..old(self)@
            })),
            old(self)@.phase == Phase::AwaitReviews && (resp.status == 200 || resp.status == 204)
                ==> (match r {
                Ok(req) => exists|es: Seq<ReviewEntryView>|
                    spec_transition(old(self)@, EventView::Reviews(es)) == Ok::<_, ()>(
                        (
                            final(self)@,
                            match req {
                                Some(q) => Some(q@),
                                None => None::<RequestView>,
                            },
                        ),
                    ),
                Err(e) => final(self)@ == old(self)@,
            }),
            old(self)@.phase == Phase::AwaitCommits && (resp.status == 200 || resp.status == 204)
                ==> (match r {
                Ok(req) => exists|sha: Seq<char>|
                    spec_transition(old(self)@, EventView::CommitId(sha)) == Ok::<_, ()>(
                        (
                            final(self)@,
                            match req {
                                Some(q) => Some(q@),
                                None => None::<RequestView>,
                            },
                        ),
                    ),
                Err(e) => final(self)@ == old(self)@,
            }),
    {
        match self.phase {
            Phase::Done => {
                return Ok(None);
            },
            _ => {},
        }
        if !check_status(resp.status) {
            return Err(ApiError::UnexpectedStatus { status: resp.status, body: resp.body });
        }
        match self.phase {
            Phase::AwaitReviews => {
                let values = match parse_value_array(resp.body.as_str()) {
                    Err(_) => {
                        return Err(ApiError::InvalidJson);
                    },
                    Ok(v) => v,
                };
                let entries = match extract_reviews(&values) {
                    Err(e) => {
                        return Err(e);
                    },
                    Ok(es) => es,
                };
                let ghost esv = entries.deep_view();
                let r = self.transition(Event::Reviews(entries));
                proof {
                    if r is Ok {
                        assert(spec_transition(old(self)@, EventView::Reviews(esv)) is Ok);
                    }
                }
                r
            },
            Phase::Deleting => self.transition(Event::Deleted),
            Phase::AwaitCommits => {
                let values = match parse_value_array(resp.body.as_str()) {
                    Err(_) => {
                        return Err(ApiError::InvalidJson);
                    },
                    Ok(v) => v,
                };
                let sha = match first_commit_sha(&values) {
                    Err(e) => {
                        return Err(e);
                    },
                    Ok(s) => s,
                };
                let ghost shav = sha@;
                let r = self.transition(Event::CommitId(sha));
                proof {
                    if r is Ok {
                        assert(spec_transition(old(self)@, EventView::CommitId(shav)) is Ok);
                    }
                }
                r
            },
            Phase::AwaitSubmit => self.transition(Event::Submitted),
            Phase::Done => Ok(None),
        }
    }
}

/// One delete request per id, in order.
pub open spec fn spec_delete_requests(p: PublisherView, ids: Seq<u64>) -> Seq<RequestView> {
    ids.map_values(|id: u64| spec_delete_request(p, id))
}

/// After the deletions: the commit query when no commit identifier was
/// supplied from outside, then exactly one submission.
pub open spec fn spec_finish_requests(p: PublisherView, sha: Seq<char>) -> Seq<RequestView> {
    match p.env_sha {
        Some(s) => seq![spec_submit_request(p, s)],
        None => seq![spec_commits_request(p), spec_submit_request(p, sha)],
    }
}

/// Requests the protocol still issues once `next` deletions are
/// acknowledged: one delete per remaining id, then the finish.
pub open spec fn spec_remaining_requests(q: PublisherView, sha: Seq<char>) -> Seq<RequestView> {
    spec_delete_requests(q, q.ids.subrange(q.next, q.ids.len() as int)) + spec_finish_requests(
        q,
        sha,
    )
}

/// What follows a successful listing, event-wise: each delete
/// acknowledged, the commit query (made only without an outside commit)
/// resolving to `sha`, and the submission acknowledged.
pub open spec fn spec_tail_events(env_sha: Option<Seq<char>>, sha: Seq<char>) -> Seq<EventView> {
    (match env_sha {
        Some(_) => Seq::<EventView>::empty(),
        None => seq![EventView::CommitId(sha)],
    }) + seq![EventView::Submitted]
}

/// The full event sequence of a successful run: the review list comes
/// back as `entries`, every delete is acknowledged, the commit query
/// resolves to `sha`, the submission is acknowledged.
pub open spec fn spec_happy_events(
    entries: Seq<ReviewEntryView>,
    user: Seq<char>,
    env_sha: Option<Seq<char>>,
    sha: Seq<char>,
) -> Seq<EventView> {
    seq![EventView::Reviews(entries)] + Seq::new(
        spec_bot_ids(entries, user).len(),
        |i: int| EventView::Deleted,
    ) + spec_tail_events(env_sha, sha)
}

/// The requests a run of the protocol issues on the events `evs`, in
/// order; `None` when some step rejects its event or the run does not
/// end with the review standing.
pub open spec fn spec_run(p: PublisherView, evs: Seq<EventView>) -> Option<Seq<RequestView>>
    decreases evs.len()
{
    if evs.len() == 0 {
        if p.phase == Phase::Done {
            Some(Seq::empty())
        } else {
            None
        }
    } else {
        match spec_transition(p, evs.first()) {
            Err(e) => None,
            Ok((p2, req)) => match spec_run(p2, evs.drop_first()) {
                None => None,
                Some(rest) => Some(
                    (match req {
                        Some(r0) => seq![r0],
                        None => Seq::<RequestView>::empty(),
                    }) + rest,
                ),
            },
        }
    }
}

/// From a deleting state on, the run issues exactly the remaining
/// requests: the pending deletes in order, then the finish.
proof fn lemma_run_advanced(q: PublisherView, sha: Seq<char>)
    requires
        q.phase == Phase::Deleting,
        0 <= q.next <= q.ids.len(),
    ensures
        spec_advance(q).1 == Some(spec_remaining_requests(q, sha).first()),
        spec_run(
            spec_advance(q).0,
            Seq::new((q.ids.len() - q.next) as nat, |i: int| EventView::Deleted)
                + spec_tail_events(q.env_sha, sha),
        ) == Some(spec_remaining_requests(q, sha).drop_first()),
    decreases q.ids.len() - q.next,
{
    let n = q.ids.len() as int;
    let dels = Seq::new((n - q.next) as nat, |i: int| EventView::Deleted);
    let evs = dels + spec_tail_events(q.env_sha, sha);
    let reqs = spec_remaining_requests(q, sha);
    if q.next < n {
        let qn = PublisherView { next: q.next + 1, ..q };
        assert(evs.first() == EventView::Deleted);
        assert(spec_transition(q, EventView::Deleted) == Ok::<_, ()>(spec_advance(qn)));
        lemma_run_advanced(qn, sha);
        assert(evs.drop_first() =~= Seq::new((n - qn.next) as nat, |i: int| EventView::Deleted)
            + spec_tail_events(qn.env_sha, sha));
        let reqs_n = spec_remaining_requests(qn, sha);
        assert(spec_delete_requests(qn, qn.ids.subrange(qn.next, n)) =~= spec_delete_requests(
            q,
            q.ids.subrange(qn.next, n),
        ));
        assert(spec_finish_requests(qn, sha) =~= spec_finish_requests(q, sha));
        assert(reqs_n =~= reqs.drop_first()) by {
            assert(reqs[0] == spec_delete_request(q, q.ids[q.next]));
        }
        assert(spec_run(spec_advance(q).0, evs) == Some(
            seq![reqs_n.first()] + reqs_n.drop_first(),
        ));
        assert(seq![reqs_n.first()] + reqs_n.drop_first() =~= reqs_n);
        assert(reqs.first() == spec_delete_request(q, q.ids[q.next]));
    } else {
        assert(q.ids.subrange(q.next, n) =~= Seq::<u64>::empty());
        assert(spec_delete_requests(q, Seq::<u64>::empty()) =~= Seq::<RequestView>::empty());
        assert(reqs =~= spec_finish_requests(q, sha));
        match q.env_sha {
            Some(s) => {
                let qs = PublisherView { phase: Phase::AwaitSubmit, ..q };
                assert(spec_advance(q) == (qs, Some(spec_submit_request(q, s))));
                assert(evs =~= seq![EventView::Submitted]);
                let qd = PublisherView { phase: Phase::Done, ..qs };
                assert(spec_transition(qs, EventView::Submitted) == Ok::<_, ()>((
                    qd,
                    None::<RequestView>,
                )));
                assert(seq![EventView::Submitted].drop_first() =~= Seq::<EventView>::empty());
                assert(spec_run(qd, Seq::<EventView>::empty()) == Some(Seq::<RequestView>::empty()));
                assert(spec_run(qs, evs) == Some(Seq::<RequestView>::empty() + Seq::<RequestView>::empty()));
                assert(Seq::<RequestView>::empty() + Seq::<RequestView>::empty()
                    =~= reqs.drop_first());
            },
            None => {
                let qc = PublisherView { phase: Phase::AwaitCommits, ..q };
                assert(spec_advance(q) == (qc, Some(spec_commits_request(q))));
                assert(evs =~= seq![EventView::CommitId(sha), EventView::Submitted]);
                let qs = PublisherView { phase: Phase::AwaitSubmit, ..qc };
                assert(evs.first() == EventView::CommitId(sha));
                assert(spec_transition(qc, EventView::CommitId(sha)) == Ok::<_, ()>((
                    qs,
                    Some(spec_submit_request(qc, sha)),
                )));
                let qd = PublisherView { phase: Phase::Done, ..qs };
                assert(evs.drop_first() =~= seq![EventView::Submitted]);
                assert(spec_transition(qs, EventView::Submitted) == Ok::<_, ()>((
                    qd,
                    None::<RequestView>,
                )));
                assert(seq![EventView::Submitted].drop_first() =~= Seq::<EventView>::empty());
                assert(spec_run(qd, Seq::<EventView>::empty()) == Some(Seq::<RequestView>::empty()));
                assert(spec_run(qs, seq![EventView::Submitted]) == Some(
                    Seq::<RequestView>::empty() + Seq::<RequestView>::empty(),
                ));
                assert(spec_run(qc, evs) == Some(seq![spec_submit_request(qc, sha)] + (
                Seq::<RequestView>::empty() + Seq::<RequestView>::empty())));
                assert(spec_submit_request(qc, sha) == spec_submit_request(q, sha));
                assert(seq![spec_submit_request(q, sha)] + (Seq::<RequestView>::empty()
                    + Seq::<RequestView>::empty()) =~= reqs.drop_first());
            },
        }
    }
}

/// Idempotent publication. However the review list comes back, a
/// successful run of the protocol issues, after listing, exactly one
/// delete per review authored by the bot username — in list order, and
/// none for any other author (`lemma_bot_ids_exact`) — and then exactly
/// one submission, carrying the planned body and the planned comments:
/// one comment per accumulated annotation.
pub proof fn lemma_publish_run(p: PublisherView, entries: Seq<ReviewEntryView>, sha: Seq<char>)
    requires
        p.phase == Phase::AwaitReviews,
    ensures
        spec_run(p, spec_happy_events(entries, p.user, p.env_sha, sha)) == Some(
            spec_delete_requests(p, spec_bot_ids(entries, p.user)) + spec_finish_requests(p, sha),
        ),
        spec_delete_requests(p, spec_bot_ids(entries, p.user)).len() == spec_bot_ids(
            entries,
            p.user,
        ).len(),
{
    let ids = spec_bot_ids(entries, p.user);
    let evs = spec_happy_events(entries, p.user, p.env_sha, sha);
    let pd = PublisherView { phase: Phase::Deleting, ids, next: 0, ..p };
    assert(evs.first() == EventView::Reviews(entries));
    assert(spec_transition(p, EventView::Reviews(entries)) == Ok::<_, ()>(spec_advance(pd)));
    lemma_run_advanced(pd, sha);
    assert(evs.drop_first() =~= Seq::new(
        (pd.ids.len() - pd.next) as nat,
        |i: int| EventView::Deleted,
    ) + spec_tail_events(pd.env_sha, sha));
    let reqs = spec_remaining_requests(pd, sha);
    assert(spec_run(p, evs) == Some(seq![reqs.first()] + reqs.drop_first()));
    assert(seq![reqs.first()] + reqs.drop_first() =~= reqs);
    assert(pd.ids.subrange(0, ids.len() as int) =~= ids);
    assert(spec_delete_requests(pd, ids) =~= spec_delete_requests(p, ids));
    assert(spec_finish_requests(pd, sha) =~= spec_finish_requests(p, sha));
    assert(reqs =~= spec_delete_requests(p, ids) + spec_finish_requests(p, sha));
}

} // verus!
