//! The log-file backend: storage round trips, offset pagination, and its
//! documented drift.

use message_log::model::{Contents, Email, Message, Name, PageToken};
use message_log::repository::{Error, Field, Repository};
use message_log::validation;

fn msg(ts: u128, name: &str, email: &str, contents: &str) -> Message {
    Message::new(
        ts,
        Name::try_from(name.to_string()).unwrap(),
        Email::try_from(email.to_string()).unwrap(),
        Contents::try_from(contents.to_string()).unwrap(),
    )
}

fn repo() -> Repository {
    Repository::new("db/database.json")
}

/// The file contents after creating each message in order.
fn file_of(repo: &Repository, msgs: &[Message]) -> Vec<u8> {
    let mut file = Vec::new();
    for m in msgs {
        file.extend_from_slice(&repo.message_line(m));
    }
    file
}

#[test]
fn created_message_is_listed_back_byte_identical() {
    let r = repo();
    let m = msg(1700000000000000000, "Ada Lovelace", "ada@example.org", "Hello there!");
    let file = file_of(&r, &[m]);
    let (page, next) = r.list_messages(&file, 10, None).unwrap();
    assert_eq!(page.len(), 1);
    assert_eq!(page[0].timestamp(), 1700000000000000000);
    assert_eq!(page[0].name().as_str(), "Ada Lovelace");
    assert_eq!(page[0].email().as_str(), "ada@example.org");
    assert_eq!(page[0].contents().as_str(), "Hello there!");
    assert!(next.is_none());
}

#[test]
fn awkward_text_survives_the_storage_round_trip() {
    let r = repo();
    let m = msg(
        7,
        "Zoë \"the bold\" \\ backslash",
        "zoë@exämple.org",
        "line one\nline two\ttabbed\r\u{8}\u{c}\u{1}\u{1f} and 日本語",
    );
    let file = file_of(&r, &[m.clone()]);
    let (page, _) = r.list_messages(&file, 10, None).unwrap();
    assert_eq!(page.len(), 1);
    assert_eq!(page[0].name().as_str(), m.name().as_str());
    assert_eq!(page[0].email().as_str(), m.email().as_str());
    assert_eq!(page[0].contents().as_str(), m.contents().as_str());
}

#[test]
fn stored_line_is_plain_json() {
    let r = repo();
    let m = msg(42, "Ada", "ada@example.org", "hi");
    let line = r.message_line(&m);
    assert_eq!(
        String::from_utf8(line).unwrap(),
        "{\"timestamp\":42,\"name\":\"Ada\",\"email\":\"ada@example.org\",\"contents\":\"hi\"}\n"
    );
}

#[test]
fn empty_file_lists_empty_page_without_token() {
    let r = repo();
    let (page, next) = r.list_messages(&[], 10, None).unwrap();
    assert!(page.is_empty());
    assert!(next.is_none());
}

#[test]
fn pages_walk_the_log_in_order() {
    let r = repo();
    let a = msg(1, "Ann", "ann@example.org", "first");
    let b = msg(2, "Ben", "ben@example.org", "second");
    let c = msg(3, "Cid", "cid@example.org", "third");
    let file = file_of(&r, &[a, b, c]);

    let (page1, token1) = r.list_messages(&file, 2, None).unwrap();
    assert_eq!(page1.len(), 2);
    assert_eq!(page1[0].name().as_str(), "Ann");
    assert_eq!(page1[1].name().as_str(), "Ben");
    let token1 = token1.expect("a full page must carry a token");
    assert_eq!(token1.offset(), 2);

    let (page2, token2) = r.list_messages(&file, 2, Some(token1)).unwrap();
    assert_eq!(page2.len(), 1);
    assert_eq!(page2[0].name().as_str(), "Cid");
    assert!(token2.is_none());
}

#[test]
fn short_page_has_no_token_and_full_page_has_one() {
    let r = repo();
    let a = msg(1, "Ann", "ann@example.org", "first");
    let b = msg(2, "Ben", "ben@example.org", "second");
    let file = file_of(&r, &[a, b]);
    // fewer than asked for: no token
    let (page, next) = r.list_messages(&file, 3, None).unwrap();
    assert_eq!(page.len(), 2);
    assert!(next.is_none());
    // exactly as many as asked for: a token, even with nothing beyond
    let (page, next) = r.list_messages(&file, 2, None).unwrap();
    assert_eq!(page.len(), 2);
    assert!(next.is_some());
}

#[test]
fn zero_and_oversized_max_results_are_clamped() {
    let r = repo();
    let msgs: Vec<Message> = (0..5)
        .map(|i| msg(i as u128, "Ann", "ann@example.org", "hello"))
        .collect();
    let file = file_of(&r, &msgs);
    // zero means the internal default of one hundred
    let (page, next) = r.list_messages(&file, 0, None).unwrap();
    assert_eq!(page.len(), 5);
    assert!(next.is_none());
    // anything above one hundred is clamped to it
    let (page, _) = r.list_messages(&file, 1000, None).unwrap();
    assert_eq!(page.len(), 5);
}

#[test]
fn offset_past_the_end_lists_nothing() {
    let r = repo();
    let file = file_of(&r, &[msg(1, "Ann", "ann@example.org", "first")]);
    let (page, next) = r
        .list_messages(&file, 10, Some(PageToken::new(100)))
        .unwrap();
    assert!(page.is_empty());
    assert!(next.is_none());
}

#[test]
fn offset_token_drifts_when_a_record_is_inserted_before_it() {
    // Documented behavior, not a defect being fixed: the log-file token
    // is a position count.  If a record lands before that position
    // between two calls, the window shifts and an already-seen record is
    // served again.
    let r = repo();
    let a = msg(1, "Ann", "ann@example.org", "first");
    let b = msg(2, "Ben", "ben@example.org", "second");
    let c = msg(3, "Cid", "cid@example.org", "third");
    let file = file_of(&r, &[a.clone(), b.clone(), c.clone()]);

    let (page1, token1) = r.list_messages(&file, 2, None).unwrap();
    assert_eq!(page1.len(), 2);
    assert_eq!(page1[1].name().as_str(), "Ben");
    let token1 = token1.unwrap();

    // a record appears out of band before the resume position
    let x = msg(0, "Xel", "xel@example.org", "squeezed in");
    let edited = file_of(&r, &[x, a, b, c]);

    let (page2, _) = r.list_messages(&edited, 2, Some(token1)).unwrap();
    // the window shifted back by one: Ben is served a second time
    assert_eq!(page2.len(), 2);
    assert_eq!(page2[0].name().as_str(), "Ben");
    assert_eq!(page2[1].name().as_str(), "Cid");
}

#[test]
fn corrupted_email_fails_the_whole_list_call() {
    let r = repo();
    let good = msg(1, "Ann", "ann@example.org", "fine");
    let mut file = file_of(&r, &[good]);
    // a stored record whose email lost its at sign
    file.extend_from_slice(
        "{\"timestamp\":2,\"name\":\"Ben\",\"email\":\"ben.example.org\",\"contents\":\"hi\"}\n"
            .as_bytes(),
    );
    let err = r.list_messages(&file, 10, None).unwrap_err();
    assert!(matches!(
        err,
        Error::CannotMapObjectFromDatabase(Field::Email, validation::Error::InvalidEmail)
    ));
}

#[test]
fn corruption_outside_the_window_does_not_leak_records() {
    // fail-closed: the bad record makes the call fail rather than being
    // silently skipped
    let r = repo();
    let good = msg(1, "Ann", "ann@example.org", "fine");
    let mut file = file_of(&r, &[good]);
    file.extend_from_slice(
        "{\"timestamp\":2,\"name\":\"\",\"email\":\"b@example.org\",\"contents\":\"hi\"}\n"
            .as_bytes(),
    );
    let err = r.list_messages(&file, 2, None).unwrap_err();
    assert!(matches!(
        err,
        Error::CannotMapObjectFromDatabase(Field::Name, validation::Error::TooShort)
    ));
}

#[test]
fn malformed_lines_fail_as_deserialization_errors() {
    let r = repo();
    for bad in [
        &b"not json at all\n"[..],
        b"{\"timestamp\":1,\"name\":\"A\",\"email\":\"a@b\",\"contents\":\"hi\"}", // no newline
        b"{\"timestamp\": 1,\"name\":\"A\",\"email\":\"a@b\",\"contents\":\"hi\"}\n", // extra space
        b"{\"timestamp\":01,\"name\":\"A\",\"email\":\"a@b\",\"contents\":\"hi\"}\n", // leading zero
        b"{\"name\":\"A\",\"timestamp\":1,\"email\":\"a@b\",\"contents\":\"hi\"}\n", // reordered
        b"{\"timestamp\":1,\"name\":\"A\",\"email\":\"a@b\",\"contents\":\"hi\",\"extra\":0}\n",
    ] {
        let err = r.list_messages(bad, 10, None).unwrap_err();
        assert!(
            matches!(err, Error::CannotDeserializeMessageFromDatabase),
            "expected a deserialization failure"
        );
    }
}

#[test]
fn repository_remembers_its_filename() {
    let r = Repository::new("some/file.json");
    assert_eq!(r.filename(), "some/file.json");
}
