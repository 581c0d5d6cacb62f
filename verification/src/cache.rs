//! The persisted message store: one JSON document holding the ordered
//! array of accumulated annotations, written and read back by a codec
//! of this crate, losslessly.
//!
//! Every record carries its eight fields in a fixed order; an absent
//! optional field is `null`. Text fields escape `"` and `\` with a
//! backslash.

use vstd::prelude::*;
use vstd::string::*;

use crate::message::{lemma_level_token_of, spec_level_of, spec_level_token, LogLevel, LogMessage, LogMessageView};
use crate::text::{
    digits_val, is_digit, lemma_dec_all_digits, lemma_dec_val, lit_at, push_char, spec_dec,
    starts_with_at, usize_to_string,
};

verus! {

/// Escape of one character inside a quoted JSON string.
pub open spec fn esc_char(c: char) -> Seq<char> {
    if c == '"' || c == '\\' {
        seq!['\\', c]
    } else {
        seq![c]
    }
}

/// Escape of a whole text, character by character.
pub open spec fn esc(s: Seq<char>) -> Seq<char>
    decreases s.len()
{
    if s.len() == 0 {
        Seq::empty()
    } else {
        esc_char(s.first()) + esc(s.drop_first())
    }
}

/// Appending one character to the text appends its escape.
proof fn lemma_esc_push(s: Seq<char>, c: char)
    ensures
        esc(s.push(c)) == esc(s) + esc_char(c),
    decreases s.len(),
{
    if s.len() == 0 {
        assert(s.push(c).drop_first() =~= Seq::<char>::empty());
        assert(s.push(c).first() == c);
        assert(esc(s.push(c)) == esc_char(c) + esc(Seq::<char>::empty()));
        assert(esc_char(c) + Seq::<char>::empty() =~= esc_char(c));
        assert(esc(s) + esc_char(c) =~= esc_char(c));
    } else {
        lemma_esc_push(s.drop_first(), c);
        assert(s.push(c).drop_first() =~= s.drop_first().push(c));
        assert(s.push(c).first() == s.first());
        assert(esc_char(s.first()) + (esc(s.drop_first()) + esc_char(c)) =~= (esc_char(s.first())
            + esc(s.drop_first())) + esc_char(c));
    }
}

/// A quoted, escaped JSON string.
pub open spec fn enc_str(s: Seq<char>) -> Seq<char> {
    seq!['"'] + esc(s) + seq!['"']
}

/// An optional text field: quoted string or `null`.
pub open spec fn enc_opt_str(v: Option<Seq<char>>) -> Seq<char> {
    match v {
        Some(s) => enc_str(s),
        None => "null"@,
    }
}

/// An optional numeric field: decimal digits or `null`.
pub open spec fn enc_opt_num(v: Option<usize>) -> Seq<char> {
    match v {
        Some(n) => spec_dec(n as nat),
        None => "null"@,
    }
}

/// The four numeric fields and the closing brace of a record.
pub open spec fn enc_nums(m: LogMessageView) -> Seq<char> {
    ",\"line\":"@ + enc_opt_num(m.line) + ",\"end_line\":"@ + enc_opt_num(m.end_line)
        + ",\"col\":"@ + enc_opt_num(m.col) + ",\"end_col\":"@ + enc_opt_num(m.end_col)
        + seq!['}']
}

/// One annotation as a JSON object with its eight fields in fixed order.
pub open spec fn enc_msg(m: LogMessageView) -> Seq<char> {
    "{\"level\":"@ + enc_str(spec_level_token(m.level)) + ",\"message\":"@ + enc_str(m.message)
        + ",\"title\":"@ + enc_opt_str(m.title) + ",\"file\":"@ + enc_opt_str(m.file)
        + enc_nums(m)
}

/// The comma-separated encodings of a sequence of annotations.
pub open spec fn enc_list(msgs: Seq<LogMessageView>) -> Seq<char>
    decreases msgs.len()
{
    if msgs.len() == 0 {
        Seq::empty()
    } else if msgs.len() == 1 {
        enc_msg(msgs[0])
    } else {
        enc_list(msgs.drop_last()) + seq![','] + enc_msg(msgs.last())
    }
}

/// The whole persisted document: a JSON array of annotation records.
pub open spec fn spec_save_cache(msgs: Seq<LogMessageView>) -> Seq<char> {
    seq!['['] + enc_list(msgs) + seq![']']
}

/// Write a quoted, escaped string onto `out`.
fn write_string(out: &mut String, s: &str)
    ensures
        final(out)@ == old(out)@ + enc_str(s@),
{
    let ghost start = out@;
    push_char(out, '"');
    let n = s.unicode_len();
    let mut i: usize = 0;
    proof {
        assert(s@.subrange(0, 0) =~= Seq::<char>::empty());
        assert(out@ =~= start + seq!['"'] + esc(s@.subrange(0, 0)));
    }
    while i < n
        invariant
            n == s@.len(),
            i <= n,
            out@ == start + seq!['"'] + esc(s@.subrange(0, i as int)),
        decreases n - i,
    {
        let c = s.get_char(i);
        proof {
            lemma_esc_push(s@.subrange(0, i as int), c);
            assert(s@.subrange(0, i as int).push(c) =~= s@.subrange(0, i as int + 1));
        }
        if c == '"' || c == '\\' {
            push_char(out, '\\');
            push_char(out, c);
        } else {
            push_char(out, c);
        }
        proof {
            assert(out@ =~= start + seq!['"'] + esc(s@.subrange(0, i as int + 1)));
        }
        i = i + 1;
    }
    push_char(out, '"');
    proof {
        assert(s@.subrange(0, n as int) =~= s@);
        assert(out@ =~= start + enc_str(s@));
    }
}

/// Write an optional text field onto `out`.
fn write_opt_str(out: &mut String, v: &Option<String>)
    ensures
        final(out)@ == old(out)@ + enc_opt_str(
            match v {
                Some(s) => Some(s@),
                None => None,
            },
        ),
{
    match v {
        Some(s) => write_string(out, s.as_str()),
        None => out.append("null"),
    }
}

/// Write an optional numeric field onto `out`.
fn write_opt_num(out: &mut String, v: &Option<usize>)
    ensures
        final(out)@ == old(out)@ + enc_opt_num(*v),
{
    match v {
        Some(n) => out.append(usize_to_string(*n).as_str()),
        None => out.append("null"),
    }
}

/// Write one annotation record onto `out`.
#[verifier::rlimit(50)]
fn write_msg(out: &mut String, m: &LogMessage)
    ensures
        final(out)@ == old(out)@ + enc_msg(m@),
{
    let ghost start = out@;
    out.append("{\"level\":");
    write_string(out, m.level.token());
    out.append(",\"message\":");
    write_string(out, m.message.as_str());
    out.append(",\"title\":");
    write_opt_str(out, &m.title);
    out.append(",\"file\":");
    write_opt_str(out, &m.file);
    proof {
        assert(out@ =~= start + ("{\"level\":"@ + enc_str(spec_level_token(m@.level))
            + ",\"message\":"@ + enc_str(m@.message) + ",\"title\":"@ + enc_opt_str(m@.title)
            + ",\"file\":"@ + enc_opt_str(m@.file)));
    }
    let ghost mid = out@;
    out.append(",\"line\":");
    write_opt_num(out, &m.line);
    out.append(",\"end_line\":");
    write_opt_num(out, &m.end_line);
    out.append(",\"col\":");
    write_opt_num(out, &m.col);
    out.append(",\"end_col\":");
    write_opt_num(out, &m.end_col);
    push_char(out, '}');
    proof {
        assert(out@ =~= mid + enc_nums(m@));
        assert(out@ =~= start + enc_msg(m@));
    }
}

/// Serialize the full annotation sequence as one JSON document. Each
/// save is a full snapshot, not an append.
pub fn save_cache(messages: &Vec<LogMessage>) -> (r: String)
    ensures
        r@ == spec_save_cache(messages.deep_view()),
{
    let ghost dv = messages.deep_view();
    let mut out = String::new();
    push_char(&mut out, '[');
    let mut i: usize = 0;
    proof {
        assert(dv.subrange(0, 0) =~= Seq::<LogMessageView>::empty());
        assert(out@ =~= seq!['['] + enc_list(dv.subrange(0, 0)));
    }
    while i < messages.len()
        invariant
            dv == messages.deep_view(),
            dv.len() == messages.len(),
            i <= messages.len(),
            out@ == seq!['['] + enc_list(dv.subrange(0, i as int)),
        decreases messages.len() - i,
    {
        if i > 0 {
            push_char(&mut out, ',');
        }
        write_msg(&mut out, &messages[i]);
        proof {
            let prefix = dv.subrange(0, i as int + 1);
            assert(prefix.drop_last() =~= dv.subrange(0, i as int));
            assert(prefix.last() == dv[i as int]);
            assert(dv[i as int] == messages@[i as int].deep_view());
            if i == 0 {
                assert(prefix.len() == 1);
                assert(prefix[0] == prefix.last());
                assert(out@ =~= seq!['['] + enc_list(prefix));
            } else {
                assert(out@ =~= seq!['['] + enc_list(prefix));
            }
        }
        i = i + 1;
    }
    push_char(&mut out, ']');
    proof {
        assert(dv.subrange(0, dv.len() as int) =~= dv);
        assert(out@ =~= spec_save_cache(dv));
    }
    out
}

/// Content of a quoted string read from position `i` (just past the
/// opening quote) up to its closing quote, undoing the escapes; the
/// position returned stands just past the closing quote.
pub open spec fn rd_str_body(s: Seq<char>, i: int) -> Option<(Seq<char>, int)>
    decreases s.len() - i when 0 <= i
{
    if i >= s.len() {
        None
    } else if s[i] == '"' {
        Some((Seq::empty(), i + 1))
    } else if s[i] == '\\' {
        if i + 1 < s.len() && (s[i + 1] == '"' || s[i + 1] == '\\') {
            match rd_str_body(s, i + 2) {
                Some((t, j)) => Some((seq![s[i + 1]] + t, j)),
                None => None,
            }
        } else {
            None
        }
    } else {
        match rd_str_body(s, i + 1) {
            Some((t, j)) => Some((seq![s[i]] + t, j)),
            None => None,
        }
    }
}

/// A quoted string read from position `i`.
pub open spec fn rd_string(s: Seq<char>, i: int) -> Option<(Seq<char>, int)> {
    if 0 <= i < s.len() && s[i] == '"' {
        rd_str_body(s, i + 1)
    } else {
        None
    }
}

/// A successful string read moves the position forward, within bounds.
pub proof fn lemma_rd_str_body_advances(s: Seq<char>, i: int)
    requires
        0 <= i,
    ensures
        match rd_str_body(s, i) {
            Some((t, j)) => i < j <= s.len(),
            None => true,
        },
    decreases s.len() - i,
{
    if i < s.len() && s[i] != '"' {
        if s[i] == '\\' {
            if i + 1 < s.len() && (s[i + 1] == '"' || s[i + 1] == '\\') {
                lemma_rd_str_body_advances(s, i + 2);
            }
        } else {
            lemma_rd_str_body_advances(s, i + 1);
        }
    }
}

/// First position at or after `i` that does not carry a digit.
pub open spec fn digits_end(s: Seq<char>, i: int) -> int
    decreases s.len() - i when 0 <= i
{
    if i >= s.len() || !is_digit(s[i]) {
        i
    } else {
        digits_end(s, i + 1)
    }
}

/// The digit run is a run of digits and ends at a non-digit or the end.
pub proof fn lemma_digits_end_props(s: Seq<char>, i: int)
    requires
        0 <= i <= s.len(),
    ensures
        i <= digits_end(s, i) <= s.len(),
        forall|k: int| i <= k < digits_end(s, i) ==> is_digit(#[trigger] s[k]),
        digits_end(s, i) < s.len() ==> !is_digit(s[digits_end(s, i)]),
    decreases s.len() - i,
{
    if i < s.len() && is_digit(s[i]) {
        lemma_digits_end_props(s, i + 1);
    }
}

/// A decimal number read from position `i`: the longest digit run,
/// rejected when empty or when its value exceeds `usize::MAX`.
pub open spec fn rd_num(s: Seq<char>, i: int) -> Option<(usize, int)> {
    if 0 <= i < s.len() && is_digit(s[i]) {
        let e = digits_end(s, i);
        let v = digits_val(s.subrange(i, e));
        if v <= usize::MAX {
            Some((v as usize, e))
        } else {
            None
        }
    } else {
        None
    }
}

/// An optional text field: a quoted string or the word `null`.
pub open spec fn rd_opt_str(s: Seq<char>, i: int) -> Option<(Option<Seq<char>>, int)> {
    if 0 <= i < s.len() && s[i] == '"' {
        match rd_string(s, i) {
            Some((t, j)) => Some((Some(t), j)),
            None => None,
        }
    } else if lit_at(s, i, "null"@) {
        Some((None, i + "null"@.len()))
    } else {
        None
    }
}

/// An optional numeric field: a decimal number or the word `null`.
pub open spec fn rd_opt_num(s: Seq<char>, i: int) -> Option<(Option<usize>, int)> {
    if 0 <= i < s.len() && is_digit(s[i]) {
        match rd_num(s, i) {
            Some((n, j)) => Some((Some(n), j)),
            None => None,
        }
    } else if lit_at(s, i, "null"@) {
        Some((None, i + "null"@.len()))
    } else {
        None
    }
}

/// One annotation record read from position `i`: the eight fields, in
/// their fixed order, between braces.
pub open spec fn rd_msg(s: Seq<char>, i: int) -> Option<(LogMessageView, int)> {
    if !lit_at(s, i, "{\"level\":"@) {
        None
    } else {
        match rd_string(s, i + "{\"level\":"@.len()) {
            None => None,
            Some((tok, j1)) => match spec_level_of(tok) {
                None => None,
                Some(level) => if !lit_at(s, j1, ",\"message\":"@) {
                    None
                } else {
                    match rd_string(s, j1 + ",\"message\":"@.len()) {
                        None => None,
                        Some((message, j2)) => if !lit_at(s, j2, ",\"title\":"@) {
                            None
                        } else {
                            match rd_opt_str(s, j2 + ",\"title\":"@.len()) {
                                None => None,
                                Some((title, j3)) => if !lit_at(s, j3, ",\"file\":"@) {
                                    None
                                } else {
                                    match rd_opt_str(s, j3 + ",\"file\":"@.len()) {
                                        None => None,
                                        Some((file, j4)) => rd_msg_nums(
                                            s,
                                            j4,
                                            LogMessageView {
                                                level,
                                                message,
                                                title,
                                                file,
                                                line: None,
                                                end_line: None,
                                                col: None,
                                                end_col: None,
                                            },
                                        ),
                                    }
                                },
                            }
                        },
                    }
                },
            },
        }
    }
}

/// The four numeric fields and the closing brace of a record, read from
/// position `i`, completing `m`.
pub open spec fn rd_msg_nums(s: Seq<char>, i: int, m: LogMessageView) -> Option<
    (LogMessageView, int),
> {
    if !lit_at(s, i, ",\"line\":"@) {
        None
    } else {
        match rd_opt_num(s, i + ",\"line\":"@.len()) {
            None => None,
            Some((line, j5)) => if !lit_at(s, j5, ",\"end_line\":"@) {
                None
            } else {
                match rd_opt_num(s, j5 + ",\"end_line\":"@.len()) {
                    None => None,
                    Some((end_line, j6)) => if !lit_at(s, j6, ",\"col\":"@) {
                        None
                    } else {
                        match rd_opt_num(s, j6 + ",\"col\":"@.len()) {
                            None => None,
                            Some((col, j7)) => if !lit_at(s, j7, ",\"end_col\":"@) {
                                None
                            } else {
                                match rd_opt_num(s, j7 + ",\"end_col\":"@.len()) {
                                    None => None,
                                    Some((end_col, j8)) => if j8 < s.len() && s[j8] == '}' {
                                        Some(
                                            (
                                                LogMessageView {
                                                    line,
                                                    end_line,
                                                    col,
                                                    end_col,
                                                    ..m
                                                },
                                                j8 + 1,
                                            ),
                                        )
                                    } else {
                                        None
                                    },
                                }
                            },
                        }
                    },
                }
            },
        }
    }
}

/// A successful optional-text read moves the position forward.
pub proof fn lemma_rd_opt_str_advances(s: Seq<char>, i: int)
    requires
        0 <= i,
    ensures
        match rd_opt_str(s, i) {
            Some((v, j)) => i < j <= s.len(),
            None => true,
        },
{
    reveal_strlit("null");
    if 0 <= i < s.len() && s[i] == '"' {
        lemma_rd_str_body_advances(s, i + 1);
    }
}

/// A successful optional-number read moves the position forward.
pub proof fn lemma_rd_opt_num_advances(s: Seq<char>, i: int)
    requires
        0 <= i,
    ensures
        match rd_opt_num(s, i) {
            Some((v, j)) => i < j <= s.len(),
            None => true,
        },
{
    reveal_strlit("null");
    if 0 <= i < s.len() && is_digit(s[i]) {
        lemma_digits_end_props(s, i);
    }
}

/// A successful record read moves the position forward.
pub proof fn lemma_rd_msg_advances(s: Seq<char>, i: int)
    ensures
        match rd_msg(s, i) {
            Some((m, j)) => i < j <= s.len(),
            None => true,
        },
{
    if lit_at(s, i, "{\"level\":"@) {
        lemma_rd_str_body_advances(s, i + "{\"level\":"@.len() + 1);
        if_chain_rd_msg_advances(s, i);
    }
}

/// Helper stepping through the fields of `rd_msg` for the advancement
/// proof.
proof fn if_chain_rd_msg_advances(s: Seq<char>, i: int)
    requires
        lit_at(s, i, "{\"level\":"@),
    ensures
        match rd_msg(s, i) {
            Some((m, j)) => i < j <= s.len(),
            None => true,
        },
{
    let p1 = i + "{\"level\":"@.len();
    lemma_rd_str_body_advances(s, p1 + 1);
    if rd_string(s, p1) is Some {
        let (tok, j1) = rd_string(s, p1)->Some_0;
        let p2 = j1 + ",\"message\":"@.len();
        lemma_rd_str_body_advances(s, p2 + 1);
        if lit_at(s, j1, ",\"message\":"@) && rd_string(s, p2) is Some {
            let (message, j2) = rd_string(s, p2)->Some_0;
            let p3 = j2 + ",\"title\":"@.len();
            lemma_rd_opt_str_advances(s, p3);
            if lit_at(s, j2, ",\"title\":"@) && rd_opt_str(s, p3) is Some {
                let (title, j3) = rd_opt_str(s, p3)->Some_0;
                let p4 = j3 + ",\"file\":"@.len();
                lemma_rd_opt_str_advances(s, p4);
                if lit_at(s, j3, ",\"file\":"@) && rd_opt_str(s, p4) is Some {
                    let (file, j4) = rd_opt_str(s, p4)->Some_0;
                    let p5 = j4 + ",\"line\":"@.len();
                    lemma_rd_opt_num_advances(s, p5);
                    if lit_at(s, j4, ",\"line\":"@) && rd_opt_num(s, p5) is Some {
                        let (line, j5) = rd_opt_num(s, p5)->Some_0;
                        let p6 = j5 + ",\"end_line\":"@.len();
                        lemma_rd_opt_num_advances(s, p6);
                        if lit_at(s, j5, ",\"end_line\":"@) && rd_opt_num(s, p6) is Some {
                            let (end_line, j6) = rd_opt_num(s, p6)->Some_0;
                            let p7 = j6 + ",\"col\":"@.len();
                            lemma_rd_opt_num_advances(s, p7);
                            if lit_at(s, j6, ",\"col\":"@) && rd_opt_num(s, p7) is Some {
                                let (col, j7) = rd_opt_num(s, p7)->Some_0;
                                let p8 = j7 + ",\"end_col\":"@.len();
                                lemma_rd_opt_num_advances(s, p8);
                            }
                        }
                    }
                }
            }
        }
    }
}

/// The records of the document, comma-separated, read from position `i`.
pub open spec fn rd_msgs(s: Seq<char>, i: int) -> Option<(Seq<LogMessageView>, int)>
    decreases s.len() - i when 0 <= i via rd_msgs_decreases
{
    match rd_msg(s, i) {
        None => None,
        Some((m, j)) => if j < s.len() && s[j] == ',' {
            match rd_msgs(s, j + 1) {
                Some((rest, k)) => Some((seq![m] + rest, k)),
                None => None,
            }
        } else {
            Some((seq![m], j))
        },
    }
}

#[via_fn]
proof fn rd_msgs_decreases(s: Seq<char>, i: int) {
    lemma_rd_msg_advances(s, i);
}

/// The whole document: a bracketed, comma-separated array of records,
/// spanning the full text. `None` is a malformed document.
pub open spec fn spec_read_cache(s: Seq<char>) -> Option<Seq<LogMessageView>> {
    if s.len() < 2 || s[0] != '[' {
        None
    } else if s.len() == 2 && s[1] == ']' {
        Some(Seq::empty())
    } else {
        match rd_msgs(s, 1) {
            Some((msgs, j)) => if j + 1 == s.len() && s[j] == ']' {
                Some(msgs)
            } else {
                None
            },
            None => None,
        }
    }
}

/// Whether a digit stands at position `k`.
fn digit_at(s: &str, k: usize) -> (r: bool)
    requires
        k < s@.len(),
    ensures
        r == is_digit(s@[k as int]),
{
    let c = s.get_char(k);
    '0' <= c && c <= '9'
}

/// Check for `lit` at position `i` and step past it.
fn expect_lit(s: &str, i: usize, lit: &str) -> (r: Option<usize>)
    ensures
        match r {
            Some(j) => lit_at(s@, i as int, lit@) && j == i + lit@.len() && j <= s@.len(),
            None => !lit_at(s@, i as int, lit@),
        },
{
    if starts_with_at(s, i, lit) {
        let n = s.unicode_len();
        let m = lit.unicode_len();
        proof {
            assert(i + m <= n);
        }
        Some(i + m)
    } else {
        None
    }
}

/// Read a quoted string at position `i`, undoing the escapes.
fn ex_rd_string(s: &str, i: usize) -> (r: Option<(String, usize)>)
    ensures
        match r {
            Some(p) => rd_string(s@, i as int) == Some((p.0@, p.1 as int)) && p.1 <= s@.len(),
            None => rd_string(s@, i as int) is None,
        },
{
    let n = s.unicode_len();
    if i >= n || s.get_char(i) != '"' {
        return None;
    }
    let mut acc = String::new();
    let mut k = i + 1;
    loop
        invariant
            n == s@.len(),
            i < n,
            s@[i as int] == '"',
            i + 1 <= k <= n,
            match rd_str_body(s@, k as int) {
                Some(p) => rd_str_body(s@, i as int + 1) == Some((acc@ + p.0, p.1)),
                None => rd_str_body(s@, i as int + 1) is None,
            },
        decreases n - k,
    {
        if k >= n {
            return None;
        }
        let c = s.get_char(k);
        if c == '"' {
            proof {
                assert(acc@ + Seq::<char>::empty() =~= acc@);
                lemma_rd_str_body_advances(s@, i as int + 1);
            }
            return Some((acc, k + 1));
        } else if c == '\\' {
            if k + 1 >= n {
                return None;
            }
            let c2 = s.get_char(k + 1);
            if c2 != '"' && c2 != '\\' {
                return None;
            }
            let ghost old_acc = acc@;
            push_char(&mut acc, c2);
            proof {
                match rd_str_body(s@, k as int + 2) {
                    Some(p) => {
                        assert(old_acc + (seq![c2] + p.0) =~= old_acc.push(c2) + p.0);
                    },
                    None => {},
                }
            }
            k = k + 2;
        } else {
            let ghost old_acc = acc@;
            push_char(&mut acc, c);
            proof {
                match rd_str_body(s@, k as int + 1) {
                    Some(p) => {
                        assert(old_acc + (seq![c] + p.0) =~= old_acc.push(c) + p.0);
                    },
                    None => {},
                }
            }
            k = k + 1;
        }
    }
}

/// Read a decimal number at position `i`.
fn ex_rd_num(s: &str, i: usize) -> (r: Option<(usize, usize)>)
    ensures
        match r {
            Some(p) => rd_num(s@, i as int) == Some((p.0, p.1 as int)) && p.1 <= s@.len(),
            None => rd_num(s@, i as int) is None,
        },
{
    let n = s.unicode_len();
    if i >= n {
        return None;
    }
    if !digit_at(s, i) {
        return None;
    }
    proof {
        lemma_digits_end_props(s@, i as int);
    }
    let ghost e = digits_end(s@, i as int);
    let mut val: usize = 0;
    let mut k = i;
    proof {
        assert(s@.subrange(i as int, i as int) =~= Seq::<char>::empty());
    }
    while k < n && digit_at(s, k)
        invariant
            n == s@.len(),
            i <= k <= n,
            k <= e,
            e == digits_end(s@, i as int),
            i <= e <= n,
            forall|t: int| i <= t < e ==> is_digit(#[trigger] s@[t]),
            e < s@.len() ==> !is_digit(s@[e]),
            val as nat == digits_val(s@.subrange(i as int, k as int)),
        decreases n - k,
    {
        let c = s.get_char(k);
        let d: usize = (c as usize) - ('0' as usize);
        proof {
            assert(k < e) by {
                if k == e {
                    assert(is_digit(s@[e]));
                }
            }
            assert(d == crate::text::digit_val(c));
        }
        let shifted = match val.checked_mul(10) {
            Some(v) => v,
            None => {
                proof {
                    num_overflow_run(s@, i as int, k as int, e);
                }
                return None;
            },
        };
        let next = match shifted.checked_add(d) {
            Some(v) => v,
            None => {
                proof {
                    num_overflow_run(s@, i as int, k as int, e);
                }
                return None;
            },
        };
        val = next;
        k = k + 1;
        proof {
            assert(s@.subrange(i as int, k as int).drop_last() =~= s@.subrange(
                i as int,
                k as int - 1,
            ));
            assert(s@.subrange(i as int, k as int).last() == s@[k as int - 1]);
        }
    }
    proof {
        assert(k == e) by {
            if k < e {
                assert(is_digit(s@[k as int]));
            }
        }
    }
    Some((val, k))
}

/// A digit run whose strict prefix already overflows reads as no number.
proof fn num_overflow_run(s: Seq<char>, i: int, k: int, e: int)
    requires
        0 <= i <= k < e <= s.len(),
        e == digits_end(s, i),
        forall|t: int| i <= t < e ==> is_digit(#[trigger] s[t]),
        digits_val(s.subrange(i, k)) * 10 + crate::text::digit_val(s[k]) > usize::MAX,
    ensures
        rd_num(s, i) is None,
{
    let run = s.subrange(i, e);
    crate::text::lemma_digits_val_mono(run, k - i + 1, e - i);
    assert(run.subrange(0, k - i + 1) =~= s.subrange(i, k + 1));
    assert(run.subrange(0, e - i) =~= run);
    assert(s.subrange(i, k + 1).drop_last() =~= s.subrange(i, k));
    assert(s.subrange(i, k + 1).last() == s[k]);
    assert(digits_val(s.subrange(i, k + 1)) > usize::MAX);
}

/// Read an optional text field at position `i`.
fn ex_rd_opt_str(s: &str, i: usize) -> (r: Option<(Option<String>, usize)>)
    ensures
        match r {
            Some(p) => rd_opt_str(s@, i as int) == Some(
                (
                    match p.0 {
                        Some(v) => Some(v@),
                        None => None,
                    },
                    p.1 as int,
                ),
            ) && p.1 <= s@.len(),
            None => rd_opt_str(s@, i as int) is None,
        },
{
    let n = s.unicode_len();
    if i < n && s.get_char(i) == '"' {
        match ex_rd_string(s, i) {
            Some(p) => Some((Some(p.0), p.1)),
            None => None,
        }
    } else {
        match expect_lit(s, i, "null") {
            Some(j) => Some((None, j)),
            None => None,
        }
    }
}

/// Read an optional numeric field at position `i`.
fn ex_rd_opt_num(s: &str, i: usize) -> (r: Option<(Option<usize>, usize)>)
    ensures
        match r {
            Some(p) => rd_opt_num(s@, i as int) == Some((p.0, p.1 as int)) && p.1 <= s@.len(),
            None => rd_opt_num(s@, i as int) is None,
        },
{
    let n = s.unicode_len();
    if i < n && digit_at(s, i) {
        match ex_rd_num(s, i) {
            Some(p) => Some((Some(p.0), p.1)),
            None => None,
        }
    } else {
        match expect_lit(s, i, "null") {
            Some(j) => Some((None, j)),
            None => None,
        }
    }
}

/// Read one annotation record at position `i`.
#[verifier::rlimit(100)]
fn ex_rd_msg(s: &str, i: usize) -> (r: Option<(LogMessage, usize)>)
    ensures
        match r {
            Some(p) => rd_msg(s@, i as int) == Some((p.0@, p.1 as int)) && i < p.1 <= s@.len(),
            None => rd_msg(s@, i as int) is None,
        },
{
    let n = s.unicode_len();
    let p1 = match expect_lit(s, i, "{\"level\":") {
        None => {
            return None;
        },
        Some(p) => p,
    };
    let (tok, j1) = match ex_rd_string(s, p1) {
        None => {
            return None;
        },
        Some(p) => p,
    };
    let level = match LogLevel::from_str(tok.as_str()) {
        None => {
            return None;
        },
        Some(l) => l,
    };
    let p2 = match expect_lit(s, j1, ",\"message\":") {
        None => {
            return None;
        },
        Some(p) => p,
    };
    let (message, j2) = match ex_rd_string(s, p2) {
        None => {
            return None;
        },
        Some(p) => p,
    };
    let p3 = match expect_lit(s, j2, ",\"title\":") {
        None => {
            return None;
        },
        Some(p) => p,
    };
    let (title, j3) = match ex_rd_opt_str(s, p3) {
        None => {
            return None;
        },
        Some(p) => p,
    };
    let p4 = match expect_lit(s, j3, ",\"file\":") {
        None => {
            return None;
        },
        Some(p) => p,
    };
    let (file, j4) = match ex_rd_opt_str(s, p4) {
        None => {
            return None;
        },
        Some(p) => p,
    };
    let p5 = match expect_lit(s, j4, ",\"line\":") {
        None => {
            return None;
        },
        Some(p) => p,
    };
    let (line_v, j5) = match ex_rd_opt_num(s, p5) {
        None => {
            return None;
        },
        Some(p) => p,
    };
    let p6 = match expect_lit(s, j5, ",\"end_line\":") {
        None => {
            return None;
        },
        Some(p) => p,
    };
    let (end_line_v, j6) = match ex_rd_opt_num(s, p6) {
        None => {
            return None;
        },
        Some(p) => p,
    };
    let p7 = match expect_lit(s, j6, ",\"col\":") {
        None => {
            return None;
        },
        Some(p) => p,
    };
    let (col_v, j7) = match ex_rd_opt_num(s, p7) {
        None => {
            return None;
        },
        Some(p) => p,
    };
    let p8 = match expect_lit(s, j7, ",\"end_col\":") {
        None => {
            return None;
        },
        Some(p) => p,
    };
    let (end_col_v, j8) = match ex_rd_opt_num(s, p8) {
        None => {
            return None;
        },
        Some(p) => p,
    };
    if j8 < n && s.get_char(j8) == '}' {
        let m = LogMessage {
            level,
            message,
            title,
            file,
            line: line_v,
            end_line: end_line_v,
            col: col_v,
            end_col: end_col_v,
        };
        proof {
            lemma_rd_msg_advances(s@, i as int);
        }
        Some((m, j8 + 1))
    } else {
        None
    }
}

/// Why a persisted document was rejected.
#[derive(Debug, PartialEq, Eq, Structural)]
pub enum CacheError {
    /// The document is not a well-formed snapshot of this codec.
    Malformed,
}

/// Deserialize a persisted document back into the annotation sequence;
/// malformed content is a hard error, with no partial recovery.
pub fn read_cache(s: &str) -> (r: Result<Vec<LogMessage>, CacheError>)
    ensures
        match r {
            Ok(v) => spec_read_cache(s@) == Some(v.deep_view()),
            Err(e) => spec_read_cache(s@) is None,
        },
{
    let n = s.unicode_len();
    if n < 2 || s.get_char(0) != '[' {
        return Err(CacheError::Malformed);
    }
    if n == 2 {
        if s.get_char(1) == ']' {
            let empty: Vec<LogMessage> = Vec::new();
            proof {
                assert(empty.deep_view() =~= Seq::<LogMessageView>::empty());
            }
            return Ok(empty);
        } else {
            proof {
                lemma_rd_msg_advances(s@, 1);
                if rd_msg(s@, 1) is Some {
                    let (m0, j0) = rd_msg(s@, 1)->Some_0;
                    assert(j0 == 2 && s@[1] != ',');
                }
            }
            return Err(CacheError::Malformed);
        }
    }
    let mut acc: Vec<LogMessage> = Vec::new();
    let mut cur: usize = 1;
    proof {
        assert(acc.deep_view() =~= Seq::<LogMessageView>::empty());
        match rd_msgs(s@, 1) {
            Some(p) => {
                assert(acc.deep_view() + p.0 =~= p.0);
            },
            None => {},
        }
    }
    loop
        invariant
            n == s@.len(),
            n > 2,
            s@[0] == '[',
            1 <= cur <= n,
            match rd_msgs(s@, cur as int) {
                Some(p) => rd_msgs(s@, 1) == Some((acc.deep_view() + p.0, p.1)),
                None => rd_msgs(s@, 1) is None,
            },
        decreases n - cur,
    {
        let (m, j) = match ex_rd_msg(s, cur) {
            None => {
                return Err(CacheError::Malformed);
            },
            Some(p) => p,
        };
        let ghost old_dv = acc.deep_view();
        acc.push(m);
        proof {
            assert(acc.deep_view() =~= old_dv.push(m@));
        }
        if j < n && s.get_char(j) == ',' {
            proof {
                match rd_msgs(s@, j as int + 1) {
                    Some(p) => {
                        assert(old_dv + (seq![m@] + p.0) =~= old_dv.push(m@) + p.0);
                    },
                    None => {},
                }
            }
            cur = j + 1;
        } else {
            proof {
                assert(rd_msgs(s@, cur as int) == Some((seq![m@], j as int)));
                assert(old_dv + seq![m@] =~= old_dv.push(m@));
            }
            if j < n && s.get_char(j) == ']' && j + 1 == n {
                return Ok(acc);
            } else {
                return Err(CacheError::Malformed);
            }
        }
    }
}

/// Reading a string body at the start of an escaped text followed by a
/// closing quote recovers the text exactly.
proof fn lemma_rd_str_body_of_esc(pre: Seq<char>, v: Seq<char>, post: Seq<char>)
    ensures
        rd_str_body(pre + esc(v) + seq!['"'] + post, pre.len() as int) == Some(
            (v, (pre.len() + esc(v).len() + 1) as int),
        ),
    decreases v.len(),
{
    let s = pre + esc(v) + seq!['"'] + post;
    let p = pre.len() as int;
    if v.len() == 0 {
        assert(s[p] == '"');
        assert(v =~= Seq::<char>::empty());
    } else {
        let c = v.first();
        let v2 = v.drop_first();
        assert(esc(v) == esc_char(c) + esc(v2));
        if c == '"' || c == '\\' {
            let pre2 = pre + seq!['\\', c];
            lemma_rd_str_body_of_esc(pre2, v2, post);
            assert(pre2 + esc(v2) + seq!['"'] + post =~= s);
            assert(s[p] == '\\');
            assert(s[p + 1] == c);
            assert(p + 1 < s.len());
            assert(rd_str_body(s, p + 2) == Some((v2, (pre2.len() + esc(v2).len() + 1) as int)));
            assert(seq![s[p + 1]] + v2 =~= v);
        } else {
            let pre2 = pre + seq![c];
            lemma_rd_str_body_of_esc(pre2, v2, post);
            assert(pre2 + esc(v2) + seq!['"'] + post =~= s);
            assert(s[p] == c);
            assert(rd_str_body(s, p + 1) == Some((v2, (pre2.len() + esc(v2).len() + 1) as int)));
            assert(seq![s[p]] + v2 =~= v);
        }
    }
}

/// Reading a quoted string at the start of its encoding recovers it.
proof fn lemma_rd_string_of_enc(pre: Seq<char>, v: Seq<char>, post: Seq<char>)
    ensures
        rd_string(pre + enc_str(v) + post, pre.len() as int) == Some(
            (v, (pre.len() + enc_str(v).len()) as int),
        ),
{
    let s = pre + enc_str(v) + post;
    let p = pre.len() as int;
    assert(s[p] == '"');
    let pre2 = pre + seq!['"'];
    lemma_rd_str_body_of_esc(pre2, v, post);
    assert(pre2 + esc(v) + seq!['"'] + post =~= s);
}

/// Reading an optional text field at the start of its encoding
/// recovers it.
proof fn lemma_rd_opt_str_of_enc(pre: Seq<char>, v: Option<Seq<char>>, post: Seq<char>)
    ensures
        rd_opt_str(pre + enc_opt_str(v) + post, pre.len() as int) == Some(
            (v, (pre.len() + enc_opt_str(v).len()) as int),
        ),
{
    reveal_strlit("null");
    let s = pre + enc_opt_str(v) + post;
    let p = pre.len() as int;
    match v {
        Some(t) => {
            assert(s[p] == '"');
            lemma_rd_string_of_enc(pre, t, post);
        },
        None => {
            assert(s[p] == 'n');
            assert(s.subrange(p, p + "null"@.len()) =~= "null"@);
        },
    }
}

/// Reading an optional numeric field at the start of its encoding
/// recovers it, as long as no digit follows it.
proof fn lemma_rd_opt_num_of_enc(pre: Seq<char>, v: Option<usize>, post: Seq<char>)
    requires
        post.len() > 0,
        !is_digit(post[0]),
    ensures
        rd_opt_num(pre + enc_opt_num(v) + post, pre.len() as int) == Some(
            (v, (pre.len() + enc_opt_num(v).len()) as int),
        ),
{
    reveal_strlit("null");
    let s = pre + enc_opt_num(v) + post;
    let p = pre.len() as int;
    match v {
        Some(x) => {
            lemma_dec_all_digits(x as nat);
            lemma_dec_val(x as nat);
            let d = spec_dec(x as nat);
            assert(s[p] == d[0]);
            assert(is_digit(s[p]));
            let e = p + d.len();
            assert(forall|k: int| p <= k < e ==> is_digit(#[trigger] s[k]) && s[k] == d[k - p]);
            assert(s[e] == post[0]);
            lemma_digits_end_run(s, p, e);
            assert(s.subrange(p, e) =~= d);
        },
        None => {
            assert(s[p] == 'n');
            assert(!is_digit('n'));
            assert(s.subrange(p, p + "null"@.len()) =~= "null"@);
        },
    }
}

/// A run of digits followed by a non-digit ends exactly there.
proof fn lemma_digits_end_run(s: Seq<char>, i: int, e: int)
    requires
        0 <= i <= e <= s.len(),
        forall|k: int| i <= k < e ==> is_digit(#[trigger] s[k]),
        e == s.len() || !is_digit(s[e]),
    ensures
        digits_end(s, i) == e,
    decreases e - i,
{
    if i < e {
        lemma_digits_end_run(s, i + 1, e);
    }
}

/// One numeric field with its key, read where the remaining text of `s`
/// is exactly `key`, the field, then `rest`.
#[verifier::rlimit(100)]
proof fn lemma_field_num_suffix(s: Seq<char>, q: int, key: Seq<char>, v: Option<usize>, rest: Seq<char>)
    requires
        0 <= q <= s.len(),
        s.subrange(q, s.len() as int) == key + (enc_opt_num(v) + rest),
        key.len() > 0,
        rest.len() > 0,
        !is_digit(rest[0]),
    ensures
        lit_at(s, q, key),
        rd_opt_num(s, q + key.len()) == Some(
            (v, (q + key.len() + enc_opt_num(v).len()) as int),
        ),
        s.subrange(q + key.len() + enc_opt_num(v).len(), s.len() as int) == rest,
{
    let tail = key + (enc_opt_num(v) + rest);
    assert(s.len() - q == tail.len());
    assert forall|i: int| q <= i < s.len() implies #[trigger] s[i] == tail[i - q] by {
        assert(s[i] == s.subrange(q, s.len() as int)[i - q]);
    }
    let pre = s.subrange(0, q + key.len());
    assert(s =~= pre + enc_opt_num(v) + rest);
    lemma_rd_opt_num_of_enc(pre, v, rest);
    assert(s.subrange(q, q + key.len()) =~= key);
    assert(s.subrange(q + key.len() + enc_opt_num(v).len(), s.len() as int) =~= rest);
}

/// One quoted-string field with its key, read where the remaining text
/// of `s` is exactly `key`, the string, then `rest`.
#[verifier::rlimit(100)]
proof fn lemma_field_str_suffix(s: Seq<char>, q: int, key: Seq<char>, v: Seq<char>, rest: Seq<char>)
    requires
        0 <= q <= s.len(),
        s.subrange(q, s.len() as int) == key + (enc_str(v) + rest),
        key.len() > 0,
    ensures
        lit_at(s, q, key),
        rd_string(s, q + key.len()) == Some((v, (q + key.len() + enc_str(v).len()) as int)),
        s.subrange(q + key.len() + enc_str(v).len(), s.len() as int) == rest,
{
    let tail = key + (enc_str(v) + rest);
    assert(s.len() - q == tail.len());
    assert forall|i: int| q <= i < s.len() implies #[trigger] s[i] == tail[i - q] by {
        assert(s[i] == s.subrange(q, s.len() as int)[i - q]);
    }
    let pre = s.subrange(0, q + key.len());
    assert(s =~= pre + enc_str(v) + rest);
    lemma_rd_string_of_enc(pre, v, rest);
    assert(s.subrange(q, q + key.len()) =~= key);
    assert(s.subrange(q + key.len() + enc_str(v).len(), s.len() as int) =~= rest);
}

/// One optional-text field with its key, read where the remaining text
/// of `s` is exactly `key`, the field, then `rest`.
#[verifier::rlimit(100)]
proof fn lemma_field_opt_str_suffix(s: Seq<char>, q: int, key: Seq<char>, v: Option<Seq<char>>, rest: Seq<char>)
    requires
        0 <= q <= s.len(),
        s.subrange(q, s.len() as int) == key + (enc_opt_str(v) + rest),
        key.len() > 0,
    ensures
        lit_at(s, q, key),
        rd_opt_str(s, q + key.len()) == Some(
            (v, (q + key.len() + enc_opt_str(v).len()) as int),
        ),
        s.subrange(q + key.len() + enc_opt_str(v).len(), s.len() as int) == rest,
{
    let tail = key + (enc_opt_str(v) + rest);
    assert(s.len() - q == tail.len());
    assert forall|i: int| q <= i < s.len() implies #[trigger] s[i] == tail[i - q] by {
        assert(s[i] == s.subrange(q, s.len() as int)[i - q]);
    }
    let pre = s.subrange(0, q + key.len());
    assert(s =~= pre + enc_opt_str(v) + rest);
    lemma_rd_opt_str_of_enc(pre, v, rest);
    assert(s.subrange(q, q + key.len()) =~= key);
    assert(s.subrange(q + key.len() + enc_opt_str(v).len(), s.len() as int) =~= rest);
}

/// Reading the numeric tail of a record where the remaining text of `s`
/// is exactly that tail then `post` fills the four numeric fields.
#[verifier::rlimit(100)]
proof fn lemma_rd_msg_nums_suffix(s: Seq<char>, q: int, m: LogMessageView, m0: LogMessageView, post: Seq<char>)
    requires
        0 <= q <= s.len(),
        s.subrange(q, s.len() as int) == enc_nums(m) + post,
    ensures
        rd_msg_nums(s, q, m0) == Some(
            (
                LogMessageView {
                    line: m.line,
                    end_line: m.end_line,
                    col: m.col,
                    end_col: m.end_col,
                    ..m0
                },
                (q + enc_nums(m).len()) as int,
            ),
        ),
        s.subrange(q + enc_nums(m).len(), s.len() as int) == post,
{
    reveal_strlit(",\"line\":");
    reveal_strlit(",\"end_line\":");
    reveal_strlit(",\"col\":");
    reveal_strlit(",\"end_col\":");
    let a5 = ",\"line\":"@;
    let b5 = enc_opt_num(m.line);
    let a6 = ",\"end_line\":"@;
    let b6 = enc_opt_num(m.end_line);
    let a7 = ",\"col\":"@;
    let b7 = enc_opt_num(m.col);
    let a8 = ",\"end_col\":"@;
    let b8 = enc_opt_num(m.end_col);
    let t4 = seq!['}'] + post;
    let t3 = a8 + (b8 + t4);
    let t2 = a7 + (b7 + t3);
    let t1 = a6 + (b6 + t2);
    let p5 = q + a5.len();
    let j5 = p5 + b5.len();
    let p6 = j5 + a6.len();
    let j6 = p6 + b6.len();
    let p7 = j6 + a7.len();
    let j7 = p7 + b7.len();
    let p8 = j7 + a8.len();
    let j8 = p8 + b8.len();
    assert(s.subrange(q, s.len() as int) =~= a5 + (b5 + t1));
    lemma_field_num_suffix(s, q, a5, m.line, t1);
    lemma_field_num_suffix(s, j5, a6, m.end_line, t2);
    lemma_field_num_suffix(s, j6, a7, m.col, t3);
    lemma_field_num_suffix(s, j7, a8, m.end_col, t4);
    assert(s[j8] == '}') by {
        assert(s.subrange(j8, s.len() as int)[0] == t4[0]);
    }
    assert forall|k: int|
        0 <= k < s.len() - j8 - 1 implies #[trigger] s.subrange(j8 + 1, s.len() as int)[k] == t4[k
        + 1] by {
        assert(s.subrange(j8 + 1, s.len() as int)[k] == s[j8 + 1 + k]);
        assert(s[j8 + 1 + k] == s.subrange(j8, s.len() as int)[k + 1]);
    }
    assert(s.subrange(j8 + 1, s.len() as int) =~= post);
    assert(j8 + 1 == q + enc_nums(m).len());
}

/// Reading one record where the remaining text of `s` is exactly its
/// encoding then `post` recovers it.
#[verifier::rlimit(100)]
proof fn lemma_rd_msg_suffix(s: Seq<char>, q: int, m: LogMessageView, post: Seq<char>)
    requires
        0 <= q <= s.len(),
        s.subrange(q, s.len() as int) == enc_msg(m) + post,
    ensures
        rd_msg(s, q) == Some((m, (q + enc_msg(m).len()) as int)),
        s.subrange(q + enc_msg(m).len(), s.len() as int) == post,
{
    reveal_strlit("{\"level\":");
    reveal_strlit(",\"message\":");
    reveal_strlit(",\"title\":");
    reveal_strlit(",\"file\":");
    let a1 = "{\"level\":"@;
    let b1 = enc_str(spec_level_token(m.level));
    let a2 = ",\"message\":"@;
    let b2 = enc_str(m.message);
    let a3 = ",\"title\":"@;
    let b3 = enc_opt_str(m.title);
    let a4 = ",\"file\":"@;
    let b4 = enc_opt_str(m.file);
    let t = enc_nums(m);
    let u4 = t + post;
    let u3 = a4 + (b4 + u4);
    let u2 = a3 + (b3 + u3);
    let u1 = a2 + (b2 + u2);
    let p1 = q + a1.len();
    let j1 = p1 + b1.len();
    let p2 = j1 + a2.len();
    let j2 = p2 + b2.len();
    let p3 = j2 + a3.len();
    let j3 = p3 + b3.len();
    let p4 = j3 + a4.len();
    let j4 = p4 + b4.len();
    assert(s.subrange(q, s.len() as int) =~= a1 + (b1 + u1));
    lemma_field_str_suffix(s, q, a1, spec_level_token(m.level), u1);
    lemma_level_token_of(m.level);
    lemma_field_str_suffix(s, j1, a2, m.message, u2);
    lemma_field_opt_str_suffix(s, j2, a3, m.title, u3);
    lemma_field_opt_str_suffix(s, j3, a4, m.file, u4);
    let m0 = LogMessageView {
        level: m.level,
        message: m.message,
        title: m.title,
        file: m.file,
        line: None,
        end_line: None,
        col: None,
        end_col: None,
    };
    lemma_rd_msg_nums_suffix(s, j4, m, m0, post);
    assert(LogMessageView {
        line: m.line,
        end_line: m.end_line,
        col: m.col,
        end_col: m.end_col,
        ..m0
    } == m);
    assert(j4 + t.len() == q + enc_msg(m).len());
}

/// The list encoding, seen from its first record.
#[verifier::rlimit(100)]
proof fn lemma_enc_list_first(msgs: Seq<LogMessageView>)
    requires
        msgs.len() >= 1,
    ensures
        enc_list(msgs) == enc_msg(msgs.first()) + if msgs.len() == 1 {
            Seq::<char>::empty()
        } else {
            seq![','] + enc_list(msgs.drop_first())
        },
    decreases msgs.len(),
{
    if msgs.len() == 1 {
        assert(enc_msg(msgs[0]) + Seq::<char>::empty() =~= enc_msg(msgs[0]));
    } else if msgs.len() == 2 {
        let dl = msgs.drop_last();
        let df = msgs.drop_first();
        assert(dl.len() == 1 && df.len() == 1);
        assert(dl[0] == msgs.first());
        assert(df[0] == msgs.last());
        assert(enc_msg(msgs.first()) + (seq![','] + enc_msg(msgs.last())) =~= enc_list(dl)
            + seq![','] + enc_msg(msgs.last()));
        assert(enc_list(df) == enc_msg(df[0]));
    } else {
        let dl = msgs.drop_last();
        let df = msgs.drop_first();
        lemma_enc_list_first(dl);
        assert(dl.first() == msgs.first());
        assert(dl.drop_first() =~= df.drop_last());
        assert(df.last() == msgs.last());
        assert(df.len() >= 2);
        assert(enc_list(df) == enc_list(df.drop_last()) + seq![','] + enc_msg(df.last()));
        assert(enc_list(msgs) == (enc_msg(msgs.first()) + (seq![','] + enc_list(df.drop_last())))
            + seq![','] + enc_msg(msgs.last()));
        assert((enc_msg(msgs.first()) + (seq![','] + enc_list(df.drop_last()))) + seq![',']
            + enc_msg(msgs.last()) =~= enc_msg(msgs.first()) + (seq![','] + (enc_list(
            df.drop_last(),
        ) + seq![','] + enc_msg(df.last()))));
    }
}

/// Reading records where the remaining text of `s` is exactly a
/// non-empty list encoding then the closing bracket recovers them all.
#[verifier::rlimit(100)]
proof fn lemma_rd_msgs_suffix(s: Seq<char>, q: int, msgs: Seq<LogMessageView>, post: Seq<char>)
    requires
        0 <= q <= s.len(),
        s.subrange(q, s.len() as int) == enc_list(msgs) + post,
        msgs.len() >= 1,
        post.len() >= 1,
        post[0] == ']',
    ensures
        rd_msgs(s, q) == Some((msgs, (q + enc_list(msgs).len()) as int)),
    decreases msgs.len(),
{
    lemma_enc_list_first(msgs);
    if msgs.len() == 1 {
        assert(s.subrange(q, s.len() as int) =~= enc_msg(msgs[0]) + post);
        lemma_rd_msg_suffix(s, q, msgs[0], post);
        let j = q + enc_msg(msgs[0]).len();
        assert(s[j] == ']') by {
            assert(s.subrange(j, s.len() as int)[0] == post[0]);
        }
        assert(seq![msgs[0]] =~= msgs);
    } else {
        let df = msgs.drop_first();
        let rest = seq![','] + (enc_list(df) + post);
        assert(s.subrange(q, s.len() as int) =~= enc_msg(msgs.first()) + rest);
        lemma_rd_msg_suffix(s, q, msgs.first(), rest);
        let j = q + enc_msg(msgs.first()).len();
        assert(s[j] == ',') by {
            assert(s.subrange(j, s.len() as int)[0] == rest[0]);
        }
        assert forall|k: int|
            0 <= k < s.len() - j - 1 implies #[trigger] s.subrange(j + 1, s.len() as int)[k]
            == rest[k + 1] by {
            assert(s.subrange(j + 1, s.len() as int)[k] == s[j + 1 + k]);
            assert(s[j + 1 + k] == s.subrange(j, s.len() as int)[k + 1]);
        }
        assert(s.subrange(j + 1, s.len() as int) =~= enc_list(df) + post);
        lemma_rd_msgs_suffix(s, j + 1, df, post);
        assert(seq![msgs.first()] + df =~= msgs);
        assert(j + 1 + enc_list(df).len() == q + enc_list(msgs).len());
    }
}

/// Cache persistence is lossless: reading back a saved snapshot yields
/// the annotation sequence that was saved, for every sequence.
pub proof fn lemma_cache_round_trip(msgs: Seq<LogMessageView>)
    ensures
        spec_read_cache(spec_save_cache(msgs)) == Some(msgs),
{
    let s = spec_save_cache(msgs);
    if msgs.len() == 0 {
        assert(s =~= seq!['[', ']']);
        assert(spec_read_cache(s) == Some(Seq::<LogMessageView>::empty()));
        assert(Seq::<LogMessageView>::empty() =~= msgs);
    } else {
        assert(s.subrange(1, s.len() as int) =~= enc_list(msgs) + seq![']']);
        lemma_rd_msgs_suffix(s, 1, msgs, seq![']']);
        let j = 1 + enc_list(msgs).len();
        assert(rd_msgs(s, 1) == Some((msgs, j as int)));
        reveal_strlit("{\"level\":");
        lemma_enc_list_first(msgs);
        assert(enc_list(msgs).len() > 0);
        assert(s.len() > 2);
        assert(s[0] == '[');
        assert(s[j as int] == ']');
        assert(j + 1 == s.len());
    }
}

} // verus!
