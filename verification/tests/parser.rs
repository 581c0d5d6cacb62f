use prbot::message::{body, count, LogLevel, LogMessage, ParseError};

#[test]
fn parse_recovers_severity_and_message() {
    for (tok, lvl) in [
        ("debug", LogLevel::Debug),
        ("notice", LogLevel::Notice),
        ("warning", LogLevel::Warning),
        ("error", LogLevel::Error),
    ] {
        let line = format!("prefix::{} file=x.rs,line=3::some message", tok);
        let m = LogMessage::parse(&line).unwrap();
        assert_eq!(m.level, lvl);
        assert_eq!(m.message, "some message");
        assert_eq!(m.file.as_deref(), Some("x.rs"));
        assert_eq!(m.line, Some(3));
    }
}

#[test]
fn parse_all_recognized_flags() {
    let m = LogMessage::parse("::warning title=Oops,file=a.py,line=3,endLine=4,col=1,endColumn=9::boom")
        .unwrap();
    assert_eq!(m.level, LogLevel::Warning);
    assert_eq!(m.message, "boom");
    assert_eq!(m.title.as_deref(), Some("Oops"));
    assert_eq!(m.file.as_deref(), Some("a.py"));
    assert_eq!(m.line, Some(3));
    assert_eq!(m.end_line, Some(4));
    assert_eq!(m.col, Some(1));
    assert_eq!(m.end_col, Some(9));
}

#[test]
fn parse_without_flags_body() {
    let m = LogMessage::parse("::debug::hello").unwrap();
    assert_eq!(m.level, LogLevel::Debug);
    assert_eq!(m.message, "hello");
    assert_eq!(m.title, None);
    assert_eq!(m.file, None);
    assert_eq!(m.line, None);
    assert_eq!(m.end_line, None);
    assert_eq!(m.col, None);
    assert_eq!(m.end_col, None);
}

#[test]
fn parse_message_may_contain_separator() {
    let m = LogMessage::parse("::notice ::left::right").unwrap();
    assert_eq!(m.level, LogLevel::Notice);
    assert_eq!(m.message, "left::right");
}

#[test]
fn parse_duplicate_keys_last_wins() {
    let m = LogMessage::parse("::error file=a.py,file=b.py,line=1,line=2::x").unwrap();
    assert_eq!(m.file.as_deref(), Some("b.py"));
    assert_eq!(m.line, Some(2));
}

#[test]
fn parse_ignores_entries_without_equals_and_unknown_keys() {
    let m = LogMessage::parse("::error lonely,zzz=1,file=a.py::x").unwrap();
    assert_eq!(m.file.as_deref(), Some("a.py"));
    assert_eq!(m.line, None);
}

#[test]
fn parse_missing_initial_separator_fails() {
    assert_eq!(
        LogMessage::parse("plain text"),
        Err(ParseError::MissingInitialSeparator)
    );
}

#[test]
fn parse_missing_secondary_separator_fails() {
    assert_eq!(
        LogMessage::parse("::error boom"),
        Err(ParseError::MissingSecondarySeparator)
    );
}

#[test]
fn parse_unknown_severity_fails() {
    assert_eq!(
        LogMessage::parse("::fatal ::msg"),
        Err(ParseError::InvalidLevel { level: "fatal".to_owned() })
    );
}

#[test]
fn parse_severity_is_case_sensitive() {
    assert_eq!(
        LogMessage::parse("::Error::msg"),
        Err(ParseError::InvalidLevel { level: "Error".to_owned() })
    );
}

#[test]
fn parse_unparsable_integer_fails_naming_key_and_value() {
    assert_eq!(
        LogMessage::parse("::error line=abc::x"),
        Err(ParseError::InvalidInt { key: "line".to_owned(), value: "abc".to_owned() })
    );
    assert_eq!(
        LogMessage::parse("::error endColumn=1x::x"),
        Err(ParseError::InvalidInt { key: "endColumn".to_owned(), value: "1x".to_owned() })
    );
}

#[test]
fn parse_huge_integer_fails() {
    let r = LogMessage::parse("::error line=99999999999999999999999999::x");
    assert_eq!(
        r,
        Err(ParseError::InvalidInt {
            key: "line".to_owned(),
            value: "99999999999999999999999999".to_owned()
        })
    );
}

#[test]
fn parse_absent_numeric_key_is_absent_not_error() {
    let m = LogMessage::parse("::error file=a.py::x").unwrap();
    assert_eq!(m.line, None);
    assert_eq!(m.end_line, None);
}

#[test]
fn example_line_parses_and_projects() {
    let m = LogMessage::parse("::error file=a.py,line=12::syntax error").unwrap();
    assert_eq!(m.level, LogLevel::Error);
    assert_eq!(m.file.as_deref(), Some("a.py"));
    assert_eq!(m.line, Some(12));
    assert_eq!(m.message, "syntax error");
    let c = m.comment();
    assert_eq!(c.body, "> [!CAUTION]\n> syntax error");
    assert_eq!(c.path.as_deref(), Some("a.py"));
    assert_eq!(c.new_position, Some(12));
}

#[test]
fn markdown_levels() {
    assert_eq!(LogLevel::Debug.markdown_level(), "NOTE");
    assert_eq!(LogLevel::Notice.markdown_level(), "IMPORTANT");
    assert_eq!(LogLevel::Warning.markdown_level(), "WARNING");
    assert_eq!(LogLevel::Error.markdown_level(), "CAUTION");
}

#[test]
fn default_level_is_debug() {
    assert_eq!(LogLevel::default(), LogLevel::Debug);
}

fn msg(level: LogLevel, text: &str) -> LogMessage {
    LogMessage {
        level,
        message: text.to_owned(),
        title: None,
        file: None,
        line: None,
        end_line: None,
        col: None,
        end_col: None,
    }
}

#[test]
fn count_is_per_severity() {
    let msgs = vec![
        msg(LogLevel::Error, "a"),
        msg(LogLevel::Debug, "b"),
        msg(LogLevel::Error, "c"),
    ];
    assert_eq!(count(&msgs, LogLevel::Error), 2);
    assert_eq!(count(&msgs, LogLevel::Debug), 1);
    assert_eq!(count(&msgs, LogLevel::Notice), 0);
    assert_eq!(count(&msgs, LogLevel::Warning), 0);
}

#[test]
fn body_reports_counts_and_permalink() {
    let msgs = vec![msg(LogLevel::Error, "a"), msg(LogLevel::Warning, "b")];
    let b = body(&msgs, "https://git.example", "me/repo", "77");
    let expected = "**Error Report from Gitea Actions [*](https://git.example/me/repo/actions/runs/77)**\n|                    <!-- -->                    | <!-- --> |\n| ---------------------------------------------- | -------- |\n| <span style=\"color:#1e7ac8\">**debug**</span>   |  0 |\n| <span style=\"color:#5a30b5\">**notice**</span>  |  0 |\n| <span style=\"color:#fbbd08\">**warning**</span> |  1 |\n| <span style=\"color:#c82121\">**error**</span>   |  1 |";
    assert_eq!(b, expected);
}

#[test]
fn body_without_run_identification_has_no_permalink() {
    let msgs: Vec<LogMessage> = vec![];
    let b = body(&msgs, "", "me/repo", "77");
    assert!(b.starts_with("**Error Report from Gitea Actions**\n"));
    assert!(!b.contains("actions/runs"));
}
