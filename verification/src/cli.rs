//! The tool's two steps — prepare and commit — and the pull-request
//! address they work against. The surrounding program reads files and
//! the environment and performs HTTP; every decision stands here.

use vstd::prelude::*;
use vstd::string::*;

use crate::api::{HttpRequest, Publisher};
use crate::cache::{save_cache, spec_save_cache};
use crate::message::{spec_parse, LogMessage, LogMessageView, ParseError, ParseErrorView};
use crate::text::{
    digits_val, find_char, is_valid_usize_str, lemma_find_char_props, lit_at, parse_usize,
    spec_dec, spec_find_char, starts_with_at, usize_to_string,
};

verus! {

/// A line is a candidate annotation exactly when it begins with the
/// `::` sentinel; all other lines are ignored, not errors.
pub open spec fn spec_candidate(line: Seq<char>) -> bool {
    lit_at(line, 0, "::"@)
}

/// The cached annotations extended by those parsed from the candidate
/// lines of one input, in order; the first rejected candidate line is
/// the result.
pub open spec fn spec_collect(cached: Seq<LogMessageView>, lines: Seq<Seq<char>>) -> Result<
    Seq<LogMessageView>,
    ParseErrorView,
>
    decreases lines.len()
{
    if lines.len() == 0 {
        Ok(cached)
    } else if !spec_candidate(lines.first()) {
        spec_collect(cached, lines.drop_first())
    } else {
        match spec_parse(lines.first()) {
            Ok(m) => spec_collect(cached.push(m), lines.drop_first()),
            Err(e) => Err(e),
        }
    }
}

/// Parse the candidate lines of one input and append them to the cached
/// annotations, in order.
pub fn collect_messages(cached: Vec<LogMessage>, lines: &Vec<String>) -> (r: Result<
    Vec<LogMessage>,
    ParseError,
>)
    ensures
        match r {
            Ok(msgs) => spec_collect(cached.deep_view(), lines.deep_view()) == Ok::<
                _,
                ParseErrorView,
            >(msgs.deep_view()),
            Err(e) => spec_collect(cached.deep_view(), lines.deep_view()) == Err::<
                Seq<LogMessageView>,
                _,
            >(e@),
        },
{
    let ghost cached0 = cached.deep_view();
    let ghost lv = lines.deep_view();
    let mut msgs = cached;
    let mut i: usize = 0;
    proof {
        assert(lv.subrange(0, lv.len() as int) =~= lv);
    }
    while i < lines.len()
        invariant
            i <= lines.len(),
            lv == lines.deep_view(),
            lv.len() == lines.len(),
            cached0 == cached.deep_view(),
            spec_collect(cached0, lv) == spec_collect(
                msgs.deep_view(),
                lv.subrange(i as int, lv.len() as int),
            ),
        decreases lines.len() - i,
    {
        let ghost rem = lv.subrange(i as int, lv.len() as int);
        proof {
            assert(rem.first() == lv[i as int]);
            assert(lv[i as int] == lines@[i as int]@);
            assert(rem.drop_first() =~= lv.subrange(i as int + 1, lv.len() as int));
        }
        let line = &lines[i];
        if starts_with_at(line.as_str(), 0, "::") {
            match LogMessage::parse(line.as_str()) {
                Ok(m) => {
                    let ghost before = msgs.deep_view();
                    msgs.push(m);
                    proof {
                        assert(msgs.deep_view() =~= before.push(m@));
                    }
                },
                Err(e) => {
                    return Err(e);
                },
            }
        }
        i = i + 1;
    }
    proof {
        assert(lv.subrange(lv.len() as int, lv.len() as int) =~= Seq::<Seq<char>>::empty());
    }
    Ok(msgs)
}

/// Collecting into any cache appends exactly the annotations the input
/// yields on its own; a rejected input is rejected from any cache.
pub proof fn lemma_collect_appends(cached: Seq<LogMessageView>, lines: Seq<Seq<char>>)
    ensures
        match spec_collect(Seq::<LogMessageView>::empty(), lines) {
            Ok(a) => spec_collect(cached, lines) == Ok::<_, ParseErrorView>(cached + a),
            Err(e) => spec_collect(cached, lines) == Err::<Seq<LogMessageView>, _>(e),
        },
    decreases lines.len(),
{
    let empty = Seq::<LogMessageView>::empty();
    if lines.len() == 0 {
        assert(cached + empty =~= cached);
    } else if !spec_candidate(lines.first()) {
        lemma_collect_appends(cached, lines.drop_first());
    } else {
        match spec_parse(lines.first()) {
            Ok(m) => {
                lemma_collect_appends(cached.push(m), lines.drop_first());
                lemma_collect_appends(empty.push(m), lines.drop_first());
                assert(empty.push(m) =~= seq![m]);
                match spec_collect(empty.push(m), lines.drop_first()) {
                    Ok(a1) => {
                        match spec_collect(empty, lines.drop_first()) {
                            Ok(a2) => {
                                assert(a1 == seq![m] + a2);
                                assert(cached.push(m) =~= cached + seq![m]);
                                assert(cached.push(m) + a2 =~= cached + (seq![m] + a2));
                            },
                            Err(_) => {},
                        }
                    },
                    Err(_) => {},
                }
            },
            Err(e) => {},
        }
    }
}

/// Accumulation across invocations: two sequential collections against
/// the same cache, each over its own input, leave the cache equal to the
/// starting cache followed by the first input's annotations and then the
/// second's, in call order.
pub proof fn lemma_accumulation(
    cached: Seq<LogMessageView>,
    first_lines: Seq<Seq<char>>,
    second_lines: Seq<Seq<char>>,
)
    requires
        spec_collect(Seq::<LogMessageView>::empty(), first_lines) is Ok,
        spec_collect(Seq::<LogMessageView>::empty(), second_lines) is Ok,
    ensures
        spec_collect(cached, first_lines) is Ok,
        spec_collect(spec_collect(cached, first_lines)->Ok_0, second_lines) == Ok::<
            _,
            ParseErrorView,
        >(
            cached + spec_collect(Seq::<LogMessageView>::empty(), first_lines)->Ok_0
                + spec_collect(Seq::<LogMessageView>::empty(), second_lines)->Ok_0,
        ),
{
    let a = spec_collect(Seq::<LogMessageView>::empty(), first_lines)->Ok_0;
    let b = spec_collect(Seq::<LogMessageView>::empty(), second_lines)->Ok_0;
    lemma_collect_appends(cached, first_lines);
    lemma_collect_appends(cached + a, second_lines);
    assert((cached + a) + b =~= cached + a + b);
}

/// What one prepare step decided: persist the enlarged cache, or hand
/// the accumulated annotations on to publication.
#[derive(Debug, PartialEq, Eq)]
pub enum PrepareOutcome {
    /// Write this document at the cache path.
    SaveCache(String),
    /// Publish these annotations now, and clear the cache on success.
    Publish(Vec<LogMessage>),
}

/// The prepare step's arguments: where the raw lines come from, and
/// whether to publish immediately after reading.
#[derive(Debug, PartialEq, Eq)]
pub struct PrepareArgs {
    pub input: String,
    pub commit: bool,
}

impl PrepareArgs {
    /// The defaults: read the standard input stream, do not publish yet.
    pub fn new() -> (r: Self)
        ensures
            r.input@ == "/dev/stdin"@,
            r.commit == false,
    {
        PrepareArgs { input: "/dev/stdin".to_owned(), commit: false }
    }

    /// One prepare step over loaded cache and raw input lines: parse the
    /// candidate lines, append them, and either produce the document to
    /// persist or hand the whole accumulation on for publication.
    pub fn prepare(&self, cached: Vec<LogMessage>, lines: &Vec<String>) -> (r: Result<
        PrepareOutcome,
        ParseError,
    >)
        ensures
            match r {
                Ok(out) => spec_collect(cached.deep_view(), lines.deep_view()) matches Ok(msgs)
                    && (match out {
                    PrepareOutcome::SaveCache(doc) => !self.commit && doc@ == spec_save_cache(msgs),
                    PrepareOutcome::Publish(v) => self.commit && v.deep_view() == msgs,
                }),
                Err(e) => spec_collect(cached.deep_view(), lines.deep_view()) == Err::<
                    Seq<LogMessageView>,
                    _,
                >(e@),
            },
    {
        let msgs = match collect_messages(cached, lines) {
            Ok(m) => m,
            Err(e) => {
                return Err(e);
            },
        };
        if !self.commit {
            Ok(PrepareOutcome::SaveCache(save_cache(&msgs)))
        } else {
            Ok(PrepareOutcome::Publish(msgs))
        }
    }
}

/// The commit step's arguments: none of its own.
#[derive(Debug, PartialEq, Eq)]
pub struct CommitArgs {}

impl CommitArgs {
    /// One commit step over the loaded cache: an empty cache is a
    /// successful no-op — no publication happens and no request is
    /// issued; otherwise open the publication protocol.
    pub fn commit(
        &self,
        messages: Vec<LogMessage>,
        pr_url: String,
        user: String,
        env_sha: Option<String>,
        server_url: &str,
        repo: &str,
        run_id: &str,
    ) -> (r: Option<(Publisher, HttpRequest)>)
        ensures
            r is None <==> messages.deep_view().len() == 0,
            r matches Some(s) ==> s.0@.comments == crate::api::spec_comments(
                messages.deep_view(),
            ) && s.0@.phase == crate::api::Phase::AwaitReviews && s.0@.user == user@
                && s.0@.pr_url == pr_url@,
    {
        if messages.len() == 0 {
            return None;
        }
        Some(Publisher::start(pr_url, user, env_sha, &messages, server_url, repo, run_id))
    }
}

/// The tool's subcommands.
#[derive(Debug, PartialEq, Eq)]
pub enum Command {
    /// Parse new input into the cache, publishing at once when asked.
    Prepare(PrepareArgs),
    /// Publish the accumulated cache as the review.
    Commit(CommitArgs),
}

/// The tool's configuration, resolved by the surrounding program from
/// arguments and environment.
#[derive(Debug, PartialEq, Eq)]
pub struct Cli {
    /// Service base address.
    pub gitea: String,
    /// Bot username whose old reviews are replaced.
    pub user: String,
    /// Access token for the service.
    pub token: String,
    /// Repository, as `owner/name`.
    pub repo: String,
    /// Pull request number, when known.
    pub number: Option<usize>,
    /// Cache file path.
    pub cache: String,
    /// What to do; the default is a plain prepare.
    pub command: Option<Command>,
}

/// Why the pull-request address could not be built.
#[derive(Debug, PartialEq, Eq)]
pub enum CliError {
    /// The repository is not of the form `owner/name`.
    InvalidRepo,
    /// No pull request number is known.
    MissingNumber,
    /// The reference does not begin with a pull request number.
    InvalidRef { gref: String },
}

/// Mathematical value of an address error.
pub enum CliErrorView {
    InvalidRepo,
    MissingNumber,
    InvalidRef(Seq<char>),
}

impl View for CliError {
    type V = CliErrorView;

    open spec fn view(&self) -> CliErrorView {
        match self {
            CliError::InvalidRepo => CliErrorView::InvalidRepo,
            CliError::MissingNumber => CliErrorView::MissingNumber,
            CliError::InvalidRef { gref } => CliErrorView::InvalidRef(gref@),
        }
    }
}

/// The number before the first `/` of a reference, or the whole
/// reference without one.
pub open spec fn spec_ref_number(gref: Seq<char>) -> Seq<char> {
    match spec_find_char(gref, '/', 0) {
        Some(i) => gref.subrange(0, i),
        None => gref,
    }
}

/// Read the pull request number off a reference of the form
/// `<number>/...` or a bare `<number>`.
pub fn pr_number_from_ref(gref: &str) -> (r: Result<usize, CliError>)
    ensures
        is_valid_usize_str(spec_ref_number(gref@)) <==> r is Ok,
        r matches Ok(n) ==> n as nat == digits_val(spec_ref_number(gref@)),
        r matches Err(e) ==> e@ == CliErrorView::InvalidRef(gref@),
{
    let number = match find_char(gref, '/', 0) {
        Some(i) => {
            proof {
                lemma_find_char_props(gref@, '/', 0);
            }
            gref.substring_char(0, i)
        },
        None => gref,
    };
    match parse_usize(number) {
        Some(v) => Ok(v),
        None => Err(CliError::InvalidRef { gref: gref.to_owned() }),
    }
}

/// The pull request's address under the service's API.
pub open spec fn spec_pr_url(gitea: Seq<char>, owner: Seq<char>, repo: Seq<char>, number: usize) -> Seq<
    char,
> {
    gitea + "/api/v1/repos/"@ + owner + "/"@ + repo + "/pulls/"@ + spec_dec(number as nat)
}

impl Cli {
    /// Build the address of the pull request's API: the repository must
    /// be of the form `owner/name`, and the number must be known —
    /// resolve it from the reference first when it is not.
    pub fn pr_url(&self) -> (r: Result<String, CliError>)
        ensures
            match r {
                Ok(u) => self.number matches Some(n) && spec_split_repo(self.repo@) matches Some(
                    (owner, rest),
                ) && u@ == spec_pr_url(self.gitea@, owner, rest, n),
                Err(e) => (e@ is InvalidRepo && spec_split_repo(self.repo@) is None) || (e@
                    is MissingNumber && self.number is None),
            },
    {
        let rn = self.repo.unicode_len();
        let i = match find_char(self.repo.as_str(), '/', 0) {
            None => {
                return Err(CliError::InvalidRepo);
            },
            Some(i) => i,
        };
        proof {
            lemma_find_char_props(self.repo@, '/', 0);
        }
        let owner = self.repo.as_str().substring_char(0, i);
        let rest = self.repo.as_str().substring_char(i + 1, rn);
        let number = match self.number {
            Some(n) => n,
            None => {
                return Err(CliError::MissingNumber);
            },
        };
        let mut u = self.gitea.clone();
        u.append("/api/v1/repos/");
        u.append(owner);
        u.append("/");
        u.append(rest);
        u.append("/pulls/");
        u.append(usize_to_string(number).as_str());
        proof {
            assert(u@ =~= spec_pr_url(
                self.gitea@,
                self.repo@.subrange(0, i as int),
                self.repo@.subrange(i as int + 1, rn as int),
                number,
            ));
        }
        Ok(u)
    }
}

/// Owner and name of a repository string, split at its first `/`.
pub open spec fn spec_split_repo(repo: Seq<char>) -> Option<(Seq<char>, Seq<char>)> {
    match spec_find_char(repo, '/', 0) {
        Some(i) => Some((repo.subrange(0, i), repo.subrange(i + 1, repo.len() as int))),
        None => None,
    }
}

} // verus!
