use prbot::cache::{read_cache, save_cache, CacheError};
use prbot::cli::{collect_messages, PrepareArgs, PrepareOutcome};
use prbot::message::{LogLevel, LogMessage};

fn msg(level: LogLevel, text: &str) -> LogMessage {
    LogMessage {
        level,
        message: text.to_owned(),
        title: None,
        file: None,
        line: None,
        end_line: None,
        col: None,
        end_col: None,
    }
}

#[test]
fn save_produces_the_documented_record() {
    let m = LogMessage {
        level: LogLevel::Error,
        message: "syntax error".to_owned(),
        title: None,
        file: Some("a.py".to_owned()),
        line: Some(12),
        end_line: None,
        col: None,
        end_col: None,
    };
    let doc = save_cache(&vec![m]);
    assert_eq!(
        doc,
        "[{\"level\":\"error\",\"message\":\"syntax error\",\"title\":null,\"file\":\"a.py\",\"line\":12,\"end_line\":null,\"col\":null,\"end_col\":null}]"
    );
}

#[test]
fn save_of_empty_sequence_is_empty_array() {
    let doc = save_cache(&vec![]);
    assert_eq!(doc, "[]");
    assert_eq!(read_cache(&doc), Ok(vec![]));
}

#[test]
fn round_trip_plain_messages() {
    let msgs = vec![
        msg(LogLevel::Debug, "first"),
        msg(LogLevel::Warning, "second"),
        msg(LogLevel::Error, "third"),
    ];
    let doc = save_cache(&msgs);
    assert_eq!(read_cache(&doc), Ok(msgs));
}

#[test]
fn round_trip_with_every_field_and_escapes() {
    let msgs = vec![
        LogMessage {
            level: LogLevel::Notice,
            message: "say \"hi\" \\ there".to_owned(),
            title: Some("a \\\"title\\\"".to_owned()),
            file: Some("dir\\file.py".to_owned()),
            line: Some(0),
            end_line: Some(18446744073709551615),
            col: Some(7),
            end_col: Some(8),
        },
        msg(LogLevel::Debug, ""),
    ];
    let doc = save_cache(&msgs);
    assert_eq!(read_cache(&doc), Ok(msgs));
}

#[test]
fn malformed_documents_are_hard_errors() {
    for bad in [
        "",
        "not json",
        "{}",
        "[",
        "[]]",
        "[{\"level\":\"error\"}]",
        "[{\"level\":\"fatal\",\"message\":\"x\",\"title\":null,\"file\":null,\"line\":null,\"end_line\":null,\"col\":null,\"end_col\":null}]",
        "[{\"level\":\"error\",\"message\":\"x\",\"title\":null,\"file\":null,\"line\":null,\"end_line\":null,\"col\":null,\"end_col\":null}] ",
        "[{\"level\":\"error\",\"message\":\"x\",\"title\":null,\"file\":null,\"line\":-1,\"end_line\":null,\"col\":null,\"end_col\":null}]",
    ] {
        assert_eq!(read_cache(bad), Err(CacheError::Malformed), "accepted: {bad}");
    }
}

#[test]
fn collect_appends_candidates_and_skips_other_lines() {
    let lines = vec![
        "::error file=a.py::one".to_owned(),
        "make: nothing to do".to_owned(),
        "::debug::two".to_owned(),
    ];
    let msgs = collect_messages(vec![msg(LogLevel::Notice, "zero")], &lines).unwrap();
    assert_eq!(msgs.len(), 3);
    assert_eq!(msgs[0].message, "zero");
    assert_eq!(msgs[1].message, "one");
    assert_eq!(msgs[2].message, "two");
}

#[test]
fn collect_propagates_the_first_parse_error() {
    let lines = vec!["::error::fine".to_owned(), "::fatal::bad".to_owned()];
    assert!(collect_messages(vec![], &lines).is_err());
}

#[test]
fn two_prepares_accumulate_in_call_order() {
    let args = PrepareArgs::new();
    assert_eq!(args.input, "/dev/stdin");
    assert!(!args.commit);

    let first = vec!["::error::a".to_owned(), "noise".to_owned()];
    let second = vec!["::debug::b".to_owned(), "::notice::c".to_owned()];

    let doc1 = match args.prepare(vec![], &first).unwrap() {
        PrepareOutcome::SaveCache(doc) => doc,
        PrepareOutcome::Publish(_) => panic!("should save"),
    };
    let cached = read_cache(&doc1).unwrap();
    let doc2 = match args.prepare(cached, &second).unwrap() {
        PrepareOutcome::SaveCache(doc) => doc,
        PrepareOutcome::Publish(_) => panic!("should save"),
    };
    let all = read_cache(&doc2).unwrap();

    let direct = collect_messages(vec![], &vec![
        "::error::a".to_owned(),
        "::debug::b".to_owned(),
        "::notice::c".to_owned(),
    ])
    .unwrap();
    assert_eq!(all, direct);
    assert_eq!(all.len(), 3);
    assert_eq!(all[0].message, "a");
    assert_eq!(all[1].message, "b");
    assert_eq!(all[2].message, "c");
}

#[test]
fn prepare_with_commit_hands_the_accumulation_on() {
    let args = PrepareArgs { input: "log.txt".to_owned(), commit: true };
    let lines = vec!["::error::a".to_owned()];
    match args.prepare(vec![msg(LogLevel::Debug, "old")], &lines).unwrap() {
        PrepareOutcome::Publish(msgs) => {
            assert_eq!(msgs.len(), 2);
            assert_eq!(msgs[0].message, "old");
            assert_eq!(msgs[1].message, "a");
        },
        PrepareOutcome::SaveCache(_) => panic!("should publish"),
    }
}
