//! Log annotations: the line grammar, the severity levels, and the
//! projections onto review comments and the review summary body.

use vstd::prelude::*;
use vstd::string::*;

use crate::api::Comment;
use crate::text::{
    digits_val, find_char, find_sep, is_valid_usize_str, lemma_find2_first, lemma_find2_props,
    lemma_find_char_first, lemma_find_char_props, parse_usize, spec_dec, spec_find2,
    spec_find_char, spec_split, spec_split_once, split_char, split_once_char, str_eq,
    usize_to_string,
};

verus! {

/// Severity of one parsed log annotation, in increasing urgency.
#[derive(Clone, Copy, Debug, PartialEq, Eq, Structural)]
pub enum LogLevel {
    Debug,
    Notice,
    Warning,
    Error,
}

/// The token that names `l` on a raw annotation line and in the cache.
pub open spec fn spec_level_token(l: LogLevel) -> Seq<char> {
    match l {
        LogLevel::Debug => "debug"@,
        LogLevel::Notice => "notice"@,
        LogLevel::Warning => "warning"@,
        LogLevel::Error => "error"@,
    }
}

/// The level named by `s`, if `s` is one of the four closed tokens.
pub open spec fn spec_level_of(s: Seq<char>) -> Option<LogLevel> {
    if s == "debug"@ {
        Some(LogLevel::Debug)
    } else if s == "notice"@ {
        Some(LogLevel::Notice)
    } else if s == "warning"@ {
        Some(LogLevel::Warning)
    } else if s == "error"@ {
        Some(LogLevel::Error)
    } else {
        None
    }
}

/// The markdown callout keyword of `l`.
pub open spec fn spec_markdown_level(l: LogLevel) -> Seq<char> {
    match l {
        LogLevel::Debug => "NOTE"@,
        LogLevel::Notice => "IMPORTANT"@,
        LogLevel::Warning => "WARNING"@,
        LogLevel::Error => "CAUTION"@,
    }
}

impl LogLevel {
    /// The markdown callout keyword for this level.
    pub fn markdown_level(&self) -> (r: &str)
        ensures
            r@ == spec_markdown_level(*self),
    {
        match self {
            LogLevel::Debug => "NOTE",
            LogLevel::Notice => "IMPORTANT",
            LogLevel::Warning => "WARNING",
            LogLevel::Error => "CAUTION",
        }
    }

    /// Parse one of the four closed severity tokens, case-sensitively.
    pub fn from_str(s: &str) -> (r: Option<LogLevel>)
        ensures
            r == spec_level_of(s@),
    {
        if str_eq(s, "debug") {
            Some(LogLevel::Debug)
        } else if str_eq(s, "notice") {
            Some(LogLevel::Notice)
        } else if str_eq(s, "warning") {
            Some(LogLevel::Warning)
        } else if str_eq(s, "error") {
            Some(LogLevel::Error)
        } else {
            None
        }
    }

    /// The cache tag of this level: the same closed token the parser takes.
    pub fn token(&self) -> (r: &str)
        ensures
            r@ == spec_level_token(*self),
    {
        match self {
            LogLevel::Debug => "debug",
            LogLevel::Notice => "notice",
            LogLevel::Warning => "warning",
            LogLevel::Error => "error",
        }
    }
}

impl Default for LogLevel {
    /// The default severity is the least urgent one.
    fn default() -> (r: Self)
        ensures
            r == LogLevel::Debug,
    {
        LogLevel::Debug
    }
}

/// Mathematical value of one annotation: every text field as a sequence
/// of characters.
pub struct LogMessageView {
    pub level: LogLevel,
    pub message: Seq<char>,
    pub title: Option<Seq<char>>,
    pub file: Option<Seq<char>>,
    pub line: Option<usize>,
    pub end_line: Option<usize>,
    pub col: Option<usize>,
    pub end_col: Option<usize>,
}

/// One parsed log annotation, immutable once constructed.
#[derive(Debug, PartialEq, Eq)]
pub struct LogMessage {
    pub level: LogLevel,
    pub message: String,
    pub title: Option<String>,
    pub file: Option<String>,
    pub line: Option<usize>,
    pub end_line: Option<usize>,
    pub col: Option<usize>,
    pub end_col: Option<usize>,
}

impl View for LogMessage {
    type V = LogMessageView;

    open spec fn view(&self) -> LogMessageView {
        LogMessageView {
            level: self.level,
            message: self.message@,
            title: match self.title {
                Some(t) => Some(t@),
                None => None,
            },
            file: match self.file {
                Some(f) => Some(f@),
                None => None,
            },
            line: self.line,
            end_line: self.end_line,
            col: self.col,
            end_col: self.end_col,
        }
    }
}

impl DeepView for LogMessage {
    type V = LogMessageView;

    open spec fn deep_view(&self) -> LogMessageView {
        self.view()
    }
}

impl Default for LogMessage {
    /// An annotation with the default level, an empty message and every
    /// optional field absent.
    fn default() -> (r: Self)
        ensures
            r.level == LogLevel::Debug,
            r.message@ == Seq::<char>::empty(),
            r.title is None && r.file is None,
            r.line is None && r.end_line is None && r.col is None && r.end_col is None,
    {
        LogMessage {
            level: LogLevel::Debug,
            message: String::new(),
            title: None,
            file: None,
            line: None,
            end_line: None,
            col: None,
            end_col: None,
        }
    }
}

/// Why a candidate line was rejected.
#[derive(Debug, PartialEq, Eq)]
pub enum ParseError {
    /// No `::` occurs at all.
    MissingInitialSeparator,
    /// No second `::` after the first.
    MissingSecondarySeparator,
    /// The severity token is outside the closed set.
    InvalidLevel { level: String },
    /// A recognized numeric key carries a non-numeric value.
    InvalidInt { key: String, value: String },
}

/// Mathematical value of a parse error.
pub enum ParseErrorView {
    MissingInitial,
    MissingSecondary,
    InvalidLevel(Seq<char>),
    InvalidInt(Seq<char>, Seq<char>),
}

impl View for ParseError {
    type V = ParseErrorView;

    open spec fn view(&self) -> ParseErrorView {
        match self {
            ParseError::MissingInitialSeparator => ParseErrorView::MissingInitial,
            ParseError::MissingSecondarySeparator => ParseErrorView::MissingSecondary,
            ParseError::InvalidLevel { level } => ParseErrorView::InvalidLevel(level@),
            ParseError::InvalidInt { key, value } => ParseErrorView::InvalidInt(key@, value@),
        }
    }
}

/// The `key=value` entries of the comma-separated fields, in order;
/// fields without `=` are dropped.
pub open spec fn spec_pairs(fields: Seq<Seq<char>>) -> Seq<(Seq<char>, Seq<char>)>
    decreases fields.len()
{
    if fields.len() == 0 {
        Seq::empty()
    } else {
        let rest = spec_pairs(fields.drop_first());
        match spec_split_once(fields.first(), '=') {
            Some(kv) => seq![kv] + rest,
            None => rest,
        }
    }
}

/// The value of the last entry with key `key`: later duplicates
/// overwrite earlier ones.
pub open spec fn spec_lookup(pairs: Seq<(Seq<char>, Seq<char>)>, key: Seq<char>) -> Option<
    Seq<char>,
>
    decreases pairs.len()
{
    if pairs.len() == 0 {
        None
    } else if pairs.last().0 == key {
        Some(pairs.last().1)
    } else {
        spec_lookup(pairs.drop_last(), key)
    }
}

/// View of a vector of string pairs.
pub open spec fn pairs_view(v: Seq<(String, String)>) -> Seq<(Seq<char>, Seq<char>)> {
    v.map(|i: int, p: (String, String)| (p.0@, p.1@))
}

/// Entries of the flag fields: split each on its first `=`, drop the rest.
fn pairs_of_fields(fields: &Vec<String>) -> (r: Vec<(String, String)>)
    ensures
        pairs_view(r@) == spec_pairs(fields.deep_view()),
{
    let ghost all = fields.deep_view();
    let mut out: Vec<(String, String)> = Vec::new();
    let mut i: usize = 0;
    proof {
        assert(all.subrange(0, all.len() as int) =~= all);
        assert(pairs_view(out@) + spec_pairs(all) =~= spec_pairs(all));
    }
    while i < fields.len()
        invariant
            i <= fields.len(),
            all == fields.deep_view(),
            spec_pairs(all) == pairs_view(out@) + spec_pairs(
                all.subrange(i as int, all.len() as int),
            ),
        decreases fields.len() - i,
    {
        let ghost rem = all.subrange(i as int, all.len() as int);
        let ghost old_pv = pairs_view(out@);
        proof {
            assert(rem.first() == all[i as int]);
            assert(rem.drop_first() =~= all.subrange(i as int + 1, all.len() as int));
            assert(all[i as int] == fields@[i as int]@);
        }
        match split_once_char(fields[i].as_str(), '=') {
            Some(kv) => {
                let ghost kvv = (kv.0@, kv.1@);
                out.push(kv);
                proof {
                    assert(pairs_view(out@) =~= old_pv.push(kvv));
                    assert(old_pv.push(kvv) + spec_pairs(rem.drop_first()) =~= old_pv + (seq![kvv]
                        + spec_pairs(rem.drop_first())));
                }
            },
            None => {},
        }
        i = i + 1;
    }
    proof {
        assert(all.subrange(all.len() as int, all.len() as int) =~= Seq::empty());
        assert(pairs_view(out@) + Seq::empty() =~= pairs_view(out@));
    }
    out
}

/// Look a key up among the flag entries, last entry winning.
fn flag_get(pairs: &Vec<(String, String)>, key: &str) -> (r: Option<String>)
    ensures
        match r {
            Some(v) => spec_lookup(pairs_view(pairs@), key@) == Some(v@),
            None => spec_lookup(pairs_view(pairs@), key@) is None,
        },
{
    let ghost pv = pairs_view(pairs@);
    let mut j = pairs.len();
    proof {
        assert(pv.subrange(0, j as int) =~= pv);
    }
    while j > 0
        invariant
            j <= pairs.len(),
            pv == pairs_view(pairs@),
            spec_lookup(pv, key@) == spec_lookup(pv.subrange(0, j as int), key@),
        decreases j,
    {
        j = j - 1;
        let ghost prefix = pv.subrange(0, j as int + 1);
        proof {
            assert(prefix.last() == pv[j as int]);
            assert(prefix.drop_last() =~= pv.subrange(0, j as int));
        }
        if str_eq(pairs[j].0.as_str(), key) {
            return Some(pairs[j].1.clone());
        }
    }
    proof {
        assert(pv.subrange(0, 0) =~= Seq::empty());
    }
    None
}

/// Value of the flag `key`: absent is `Ok(None)`; a present value that
/// is not a `usize` rendering is the offending value.
pub open spec fn spec_get_int(pairs: Seq<(Seq<char>, Seq<char>)>, key: Seq<char>) -> Result<
    Option<usize>,
    Seq<char>,
> {
    match spec_lookup(pairs, key) {
        None => Ok(None),
        Some(v) => if is_valid_usize_str(v) {
            Ok(Some(digits_val(v) as usize))
        } else {
            Err(v)
        },
    }
}

/// Read the flag `key` as a non-negative integer; absent is `Ok(None)`,
/// present but unparsable is a hard error naming key and value.
pub fn get_int(pairs: &Vec<(String, String)>, key: &str) -> (r: Result<Option<usize>, ParseError>)
    ensures
        match r {
            Ok(o) => spec_get_int(pairs_view(pairs@), key@) == Ok::<Option<usize>, Seq<char>>(o),
            Err(e) => match e@ {
                ParseErrorView::InvalidInt(k, v) => k == key@ && spec_get_int(
                    pairs_view(pairs@),
                    key@,
                ) == Err::<Option<usize>, Seq<char>>(v),
                _ => false,
            },
        },
{
    match flag_get(pairs, key) {
        None => Ok(None),
        Some(v) => match parse_usize(v.as_str()) {
            Some(n) => Ok(Some(n)),
            None => Err(ParseError::InvalidInt { key: key.to_owned(), value: v }),
        },
    }
}

/// The severity token of a flags segment: what stands before the first
/// space, or the whole segment without one.
pub open spec fn spec_level_tok(fr: Seq<char>) -> Seq<char> {
    match spec_find_char(fr, ' ', 0) {
        Some(k) => fr.subrange(0, k),
        None => fr,
    }
}

/// The flags body of a flags segment: what stands after the first
/// space, or nothing without one.
pub open spec fn spec_flags_body(fr: Seq<char>) -> Seq<char> {
    match spec_find_char(fr, ' ', 0) {
        Some(k) => fr.subrange(k + 1, fr.len() as int),
        None => Seq::empty(),
    }
}

/// The line grammar: everything before the first `::` is discarded, the
/// remainder splits at the next `::` into a flags segment and the
/// verbatim message; the flags segment splits at its first space into
/// the severity token and a comma-separated `key=value` list.
pub open spec fn spec_parse(line: Seq<char>) -> Result<LogMessageView, ParseErrorView> {
    match spec_find2(line, 0) {
        None => Err(ParseErrorView::MissingInitial),
        Some(i) => {
            let rest = line.subrange(i + 2, line.len() as int);
            match spec_find2(rest, 0) {
                None => Err(ParseErrorView::MissingSecondary),
                Some(j) => {
                    let flags_raw = rest.subrange(0, j);
                    let message = rest.subrange(j + 2, rest.len() as int);
                    let tok = spec_level_tok(flags_raw);
                    match spec_level_of(tok) {
                        None => Err(ParseErrorView::InvalidLevel(tok)),
                        Some(level) => {
                            let pairs = spec_pairs(spec_split(spec_flags_body(flags_raw), ','));
                            match spec_get_int(pairs, "line"@) {
                                Err(v) => Err(ParseErrorView::InvalidInt("line"@, v)),
                                Ok(line_v) => match spec_get_int(pairs, "endLine"@) {
                                    Err(v) => Err(ParseErrorView::InvalidInt("endLine"@, v)),
                                    Ok(end_line_v) => match spec_get_int(pairs, "col"@) {
                                        Err(v) => Err(ParseErrorView::InvalidInt("col"@, v)),
                                        Ok(col_v) => match spec_get_int(pairs, "endColumn"@) {
                                            Err(v) => Err(
                                                ParseErrorView::InvalidInt("endColumn"@, v),
                                            ),
                                            Ok(end_col_v) => Ok(
                                                LogMessageView {
                                                    level,
                                                    message,
                                                    title: spec_lookup(pairs, "title"@),
                                                    file: spec_lookup(pairs, "file"@),
                                                    line: line_v,
                                                    end_line: end_line_v,
                                                    col: col_v,
                                                    end_col: end_col_v,
                                                },
                                            ),
                                        },
                                    },
                                },
                            }
                        },
                    }
                },
            }
        },
    }
}

impl LogMessage {
    /// Parse one raw log line into an annotation, or reject it.
    pub fn parse(line: &str) -> (r: Result<LogMessage, ParseError>)
        ensures
            match r {
                Ok(m) => spec_parse(line@) == Ok::<LogMessageView, ParseErrorView>(m@),
                Err(e) => spec_parse(line@) == Err::<LogMessageView, ParseErrorView>(e@),
            },
    {
        let n = line.unicode_len();
        let i = match find_sep(line, 0) {
            None => {
                return Err(ParseError::MissingInitialSeparator);
            },
            Some(i) => i,
        };
        proof {
            lemma_find2_props(line@, 0);
        }
        let rest = line.substring_char(i + 2, n);
        let rn = rest.unicode_len();
        let j = match find_sep(rest, 0) {
            None => {
                return Err(ParseError::MissingSecondarySeparator);
            },
            Some(j) => j,
        };
        proof {
            lemma_find2_props(rest@, 0);
        }
        let flags_raw = rest.substring_char(0, j);
        let message = rest.substring_char(j + 2, rn);
        let fl = flags_raw.unicode_len();
        let (tok, fbody): (&str, &str) = match find_char(flags_raw, ' ', 0) {
            Some(k) => {
                proof {
                    lemma_find_char_props(flags_raw@, ' ', 0);
                }
                (flags_raw.substring_char(0, k), flags_raw.substring_char(k + 1, fl))
            },
            None => (flags_raw, ""),
        };
        proof {
            reveal_strlit("");
            assert(""@ =~= Seq::<char>::empty());
        }
        let level = match LogLevel::from_str(tok) {
            None => {
                return Err(ParseError::InvalidLevel { level: tok.to_owned() });
            },
            Some(l) => l,
        };
        let fields = split_char(fbody, ',');
        let pairs = pairs_of_fields(&fields);
        let title = flag_get(&pairs, "title");
        let file = flag_get(&pairs, "file");
        let line_v = match get_int(&pairs, "line") {
            Ok(v) => v,
            Err(e) => {
                return Err(e);
            },
        };
        let end_line_v = match get_int(&pairs, "endLine") {
            Ok(v) => v,
            Err(e) => {
                return Err(e);
            },
        };
        let col_v = match get_int(&pairs, "col") {
            Ok(v) => v,
            Err(e) => {
                return Err(e);
            },
        };
        let end_col_v = match get_int(&pairs, "endColumn") {
            Ok(v) => v,
            Err(e) => {
                return Err(e);
            },
        };
        Ok(
            LogMessage {
                level,
                message: message.to_owned(),
                title,
                file,
                line: line_v,
                end_line: end_line_v,
                col: col_v,
                end_col: end_col_v,
            },
        )
    }

    /// The markdown body of this annotation's review comment.
    pub open spec fn spec_comment_body(m: LogMessageView) -> Seq<char> {
        "> [!"@ + spec_markdown_level(m.level) + "]\n> "@ + m.message
    }

    /// Project this annotation onto one review comment.
    pub fn comment(&self) -> (c: Comment)
        ensures
            c@.body == Self::spec_comment_body(self@),
            c@.path == self@.file,
            c@.new_position == self@.line,
    {
        let mut body = "> [!".to_owned();
        body.append(self.level.markdown_level());
        body.append("]\n> ");
        body.append(self.message.as_str());
        Comment {
            body,
            path: match &self.file {
                Some(f) => Some(f.clone()),
                None => None,
            },
            new_position: self.line,
        }
    }
}

/// How many of `msgs` carry the severity `level`.
pub open spec fn spec_count(msgs: Seq<LogMessageView>, level: LogLevel) -> nat
    decreases msgs.len()
{
    if msgs.len() == 0 {
        0
    } else {
        spec_count(msgs.drop_last(), level) + if msgs.last().level == level {
            1nat
        } else {
            0nat
        }
    }
}

/// Count the annotations at severity `level`.
pub fn count(messages: &Vec<LogMessage>, level: LogLevel) -> (c: usize)
    ensures
        c as nat == spec_count(messages.deep_view(), level),
{
    let ghost dv = messages.deep_view();
    let mut c: usize = 0;
    let mut i: usize = 0;
    proof {
        assert(dv.subrange(0, 0) =~= Seq::empty());
    }
    while i < messages.len()
        invariant
            i <= messages.len(),
            dv == messages.deep_view(),
            dv.len() == messages.len(),
            c as nat == spec_count(dv.subrange(0, i as int), level),
            c <= i,
        decreases messages.len() - i,
    {
        let ghost prefix = dv.subrange(0, i as int + 1);
        proof {
            assert(prefix.last() == dv[i as int]);
            assert(prefix.drop_last() =~= dv.subrange(0, i as int));
            assert(dv[i as int] == messages@[i as int].deep_view());
        }
        if messages[i].level == level {
            c = c + 1;
        }
        i = i + 1;
    }
    proof {
        assert(dv.subrange(0, dv.len() as int) =~= dv);
    }
    c
}

/// The permalink fragment appended to the report title when the server,
/// the repository and the run id are all known.
pub open spec fn spec_run_url(server: Seq<char>, repo: Seq<char>, run_id: Seq<char>) -> Seq<char> {
    if server.len() > 0 && repo.len() > 0 && run_id.len() > 0 {
        " [*]("@ + server + "/"@ + repo + "/actions/runs/"@ + run_id + ")"@
    } else {
        Seq::empty()
    }
}

/// The review summary: a fixed markdown table with one row per severity,
/// counting the annotations at that severity.
pub open spec fn spec_body(
    msgs: Seq<LogMessageView>,
    server: Seq<char>,
    repo: Seq<char>,
    run_id: Seq<char>,
) -> Seq<char> {
    "**Error Report from Gitea Actions"@ + spec_run_url(server, repo, run_id)
        + "**\n|                    <!-- -->                    | <!-- --> |\n| ---------------------------------------------- | -------- |\n| <span style=\"color:#1e7ac8\">**debug**</span>   |  "@
        + spec_dec(spec_count(msgs, LogLevel::Debug))
        + " |\n| <span style=\"color:#5a30b5\">**notice**</span>  |  "@ + spec_dec(
        spec_count(msgs, LogLevel::Notice),
    ) + " |\n| <span style=\"color:#fbbd08\">**warning**</span> |  "@ + spec_dec(
        spec_count(msgs, LogLevel::Warning),
    ) + " |\n| <span style=\"color:#c82121\">**error**</span>   |  "@ + spec_dec(
        spec_count(msgs, LogLevel::Error),
    ) + " |"@
}

/// Format the review's main body. The three identifying values come from
/// the caller's execution environment; when one is empty the title
/// carries no permalink.
pub fn body(messages: &Vec<LogMessage>, server_url: &str, repo: &str, run_id: &str) -> (r: String)
    ensures
        r@ == spec_body(messages.deep_view(), server_url@, repo@, run_id@),
{
    let mut out = "**Error Report from Gitea Actions".to_owned();
    if !server_url.is_empty() && !repo.is_empty() && !run_id.is_empty() {
        out.append(" [*](");
        out.append(server_url);
        out.append("/");
        out.append(repo);
        out.append("/actions/runs/");
        out.append(run_id);
        out.append(")");
    }
    out.append(
        "**\n|                    <!-- -->                    | <!-- --> |\n| ---------------------------------------------- | -------- |\n| <span style=\"color:#1e7ac8\">**debug**</span>   |  ",
    );
    out.append(usize_to_string(count(messages, LogLevel::Debug)).as_str());
    out.append(" |\n| <span style=\"color:#5a30b5\">**notice**</span>  |  ");
    out.append(usize_to_string(count(messages, LogLevel::Notice)).as_str());
    out.append(" |\n| <span style=\"color:#fbbd08\">**warning**</span> |  ");
    out.append(usize_to_string(count(messages, LogLevel::Warning)).as_str());
    out.append(" |\n| <span style=\"color:#c82121\">**error**</span>   |  ");
    out.append(usize_to_string(count(messages, LogLevel::Error)).as_str());
    out.append(" |");
    proof {
        assert(out@ =~= spec_body(messages.deep_view(), server_url@, repo@, run_id@));
    }
    out
}

/// The parse token of each level names exactly that level.
pub proof fn lemma_level_token_of(l: LogLevel)
    ensures
        spec_level_of(spec_level_token(l)) == Some(l),
{
    reveal_strlit("debug");
    reveal_strlit("notice");
    reveal_strlit("warning");
    reveal_strlit("error");
    match l {
        LogLevel::Debug => {},
        LogLevel::Notice => {
            assert("notice"@[0] != "debug"@[0]);
        },
        LogLevel::Warning => {
            assert("warning"@[0] != "debug"@[0]);
        },
        LogLevel::Error => {
            assert("error"@[0] != "debug"@[0]);
            assert("error"@[0] != "notice"@[0]);
            assert("error"@[0] != "warning"@[0]);
        },
    }
}

/// A text that introduces no `::` of its own: none inside it, and no
/// trailing `:` that could fuse with what follows it on the line.
pub open spec fn sep_free(s: Seq<char>) -> bool {
    (forall|i: int| 0 <= i < s.len() - 1 ==> !(#[trigger] s[i] == ':' && s[i + 1] == ':')) && (s.len() > 0
        ==> s.last() != ':')
}

/// Every severity token is free of `:` and of spaces.
proof fn lemma_token_chars(l: LogLevel)
    ensures
        forall|k: int|
            0 <= k < spec_level_token(l).len() ==> #[trigger] spec_level_token(l)[k] != ':'
                && spec_level_token(l)[k] != ' ',
        spec_level_token(l).len() > 0,
{
    reveal_strlit("debug");
    reveal_strlit("notice");
    reveal_strlit("warning");
    reveal_strlit("error");
    match l {
        LogLevel::Debug => {
            assert(spec_level_token(l) =~= seq!['d', 'e', 'b', 'u', 'g']);
        },
        LogLevel::Notice => {
            assert(spec_level_token(l) =~= seq!['n', 'o', 't', 'i', 'c', 'e']);
        },
        LogLevel::Warning => {
            assert(spec_level_token(l) =~= seq!['w', 'a', 'r', 'n', 'i', 'n', 'g']);
        },
        LogLevel::Error => {
            assert(spec_level_token(l) =~= seq!['e', 'r', 'r', 'o', 'r']);
        },
    }
}

/// Parsing recovers a well-formed line exactly. A line written as
/// `prefix::<severity> <flags>::<message>` — the prefix and the flags
/// introducing no `::` of their own, the severity one of the closed
/// tokens, and every recognized numeric flag carrying a readable value —
/// parses successfully, to exactly that severity, that verbatim message,
/// and the value of each recognized flag under last-write-wins.
pub proof fn lemma_parse_well_formed(
    prefix: Seq<char>,
    level: LogLevel,
    flags: Seq<char>,
    message: Seq<char>,
)
    requires
        sep_free(prefix),
        sep_free(flags),
        spec_get_int(spec_pairs(spec_split(flags, ',')), "line"@) is Ok,
        spec_get_int(spec_pairs(spec_split(flags, ',')), "endLine"@) is Ok,
        spec_get_int(spec_pairs(spec_split(flags, ',')), "col"@) is Ok,
        spec_get_int(spec_pairs(spec_split(flags, ',')), "endColumn"@) is Ok,
    ensures
        ({
            let line = prefix + "::"@ + spec_level_token(level) + seq![' '] + flags + "::"@
                + message;
            let pairs = spec_pairs(spec_split(flags, ','));
            spec_parse(line) == Ok::<LogMessageView, ParseErrorView>(
                LogMessageView {
                    level,
                    message,
                    title: spec_lookup(pairs, "title"@),
                    file: spec_lookup(pairs, "file"@),
                    line: spec_get_int(pairs, "line"@)->Ok_0,
                    end_line: spec_get_int(pairs, "endLine"@)->Ok_0,
                    col: spec_get_int(pairs, "col"@)->Ok_0,
                    end_col: spec_get_int(pairs, "endColumn"@)->Ok_0,
                },
            )
        }),
{
    reveal_strlit("::");
    let tok = spec_level_token(level);
    let line = prefix + "::"@ + tok + seq![' '] + flags + "::"@ + message;
    let p = prefix.len() as int;
    lemma_token_chars(level);
    lemma_level_token_of(level);
    assert("::"@ =~= seq![':', ':']);

    assert(line[p] == ':' && line[p + 1] == ':');
    assert forall|k: int| 0 <= k < p implies !(line[k] == ':' && #[trigger] line[k + 1] == ':') by {
        if k < p - 1 {
            assert(line[k] == prefix[k] && line[k + 1] == prefix[k + 1]);
        } else {
            assert(line[k] == prefix[k]);
            assert(prefix[k] == prefix.last());
        }
    }
    lemma_find2_first(line, 0, p);

    let rest = line.subrange(p + 2, line.len() as int);
    assert(rest =~= tok + seq![' '] + flags + "::"@ + message);
    let t = tok.len() as int;
    let j = t + 1 + flags.len() as int;
    assert(rest[j] == ':' && rest[j + 1] == ':');
    assert forall|k: int| 0 <= k < j implies !(rest[k] == ':' && #[trigger] rest[k + 1] == ':') by {
        if k < t {
            assert(rest[k] == tok[k]);
        } else if k == t {
            assert(rest[k] == ' ');
        } else if k < j - 1 {
            assert(rest[k] == flags[k - t - 1] && rest[k + 1] == flags[k - t]);
        } else {
            assert(rest[k] == flags[k - t - 1]);
            assert(flags[k - t - 1] == flags.last());
        }
    }
    lemma_find2_first(rest, 0, j);

    let flags_raw = rest.subrange(0, j);
    assert(flags_raw =~= tok + seq![' '] + flags);
    assert(rest.subrange(j + 2, rest.len() as int) =~= message);

    assert(flags_raw[t] == ' ');
    assert forall|k: int| 0 <= k < t implies flags_raw[k] != ' ' by {
        assert(flags_raw[k] == tok[k]);
    }
    lemma_find_char_first(flags_raw, ' ', 0, t);
    assert(spec_level_tok(flags_raw) =~= tok);
    assert(spec_flags_body(flags_raw) =~= flags);
}

/// Rejection is exact. A line without any `::` is rejected for its
/// missing initial separator; one without a second `::` for the missing
/// secondary separator; and one whose severity token falls outside the
/// closed set is rejected naming that token.
pub proof fn lemma_parse_rejects(line: Seq<char>)
    ensures
        spec_find2(line, 0) is None ==> spec_parse(line) == Err::<
            LogMessageView,
            ParseErrorView,
        >(ParseErrorView::MissingInitial),
        (spec_find2(line, 0) matches Some(i) && spec_find2(
            line.subrange(i + 2, line.len() as int),
            0,
        ) is None) ==> spec_parse(line) == Err::<LogMessageView, ParseErrorView>(
            ParseErrorView::MissingSecondary,
        ),
        (match spec_find2(line, 0) {
            Some(i) => (match spec_find2(line.subrange(i + 2, line.len() as int), 0) {
                Some(j) => ({
                    let tok = spec_level_tok(
                        line.subrange(i + 2, line.len() as int).subrange(0, j),
                    );
                    spec_level_of(tok) is None ==> spec_parse(line) == Err::<
                        LogMessageView,
                        ParseErrorView,
                    >(ParseErrorView::InvalidLevel(tok))
                }),
                None => true,
            }),
            None => true,
        }),
{
}

/// A recognized numeric key that is absent yields an absent field, not
/// an error; present but unreadable, it is a hard error carrying the
/// offending value.
pub proof fn lemma_get_int_behavior(pairs: Seq<(Seq<char>, Seq<char>)>, key: Seq<char>)
    ensures
        spec_lookup(pairs, key) is None ==> spec_get_int(pairs, key) == Ok::<
            Option<usize>,
            Seq<char>,
        >(None),
        (spec_lookup(pairs, key) matches Some(v) && !is_valid_usize_str(v)) ==> spec_get_int(
            pairs,
            key,
        ) == Err::<Option<usize>, Seq<char>>(spec_lookup(pairs, key)->Some_0),
        (spec_lookup(pairs, key) matches Some(v) && is_valid_usize_str(v)) ==> spec_get_int(
            pairs,
            key,
        ) == Ok::<Option<usize>, Seq<char>>(Some(digits_val(spec_lookup(pairs, key)->Some_0) as usize)),
{
}

} // verus!
