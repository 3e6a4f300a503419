//! Value-type validation and page-token round trips.

use message_log::model::{Contents, Email, Message, Name, PageToken};
use message_log::validation;

fn name(s: &str) -> Name {
    Name::try_from(s.to_string()).unwrap()
}

fn email(s: &str) -> Email {
    Email::try_from(s.to_string()).unwrap()
}

fn contents(s: &str) -> Contents {
    Contents::try_from(s.to_string()).unwrap()
}

#[test]
fn name_accepts_ordinary_text() {
    let n = name("Ada Lovelace");
    assert_eq!(n.as_str(), "Ada Lovelace");
}

#[test]
fn name_rejects_empty() {
    assert!(matches!(
        Name::try_from(String::new()),
        Err(validation::Error::TooShort)
    ));
}

#[test]
fn name_accepts_cap_and_rejects_one_past_it() {
    let exactly = "x".repeat(255);
    assert!(Name::try_from(exactly).is_ok());
    let too_long = "x".repeat(256);
    assert!(matches!(
        Name::try_from(too_long),
        Err(validation::Error::TooLong)
    ));
}

#[test]
fn name_cap_counts_bytes_not_chars() {
    // 128 two-byte characters: 128 chars but 256 bytes.
    let wide = "é".repeat(128);
    assert_eq!(wide.chars().count(), 128);
    assert!(matches!(
        Name::try_from(wide),
        Err(validation::Error::TooLong)
    ));
}

#[test]
fn email_rejects_empty() {
    assert!(matches!(
        Email::try_from(String::new()),
        Err(validation::Error::TooShort)
    ));
}

#[test]
fn email_rejects_missing_at_sign() {
    assert!(matches!(
        Email::try_from("nobody.example.org".to_string()),
        Err(validation::Error::InvalidEmail)
    ));
}

#[test]
fn email_accepts_cap_and_rejects_one_past_it() {
    let mut exactly = "a@".to_string();
    exactly.push_str(&"x".repeat(253));
    assert!(Email::try_from(exactly).is_ok());
    let mut too_long = "a@".to_string();
    too_long.push_str(&"x".repeat(254));
    assert!(matches!(
        Email::try_from(too_long),
        Err(validation::Error::TooLong)
    ));
}

#[test]
fn contents_rejects_empty_and_one_past_cap() {
    assert!(matches!(
        Contents::try_from(String::new()),
        Err(validation::Error::TooShort)
    ));
    assert!(Contents::try_from("y".repeat(1024)).is_ok());
    assert!(matches!(
        Contents::try_from("y".repeat(1025)),
        Err(validation::Error::TooLong)
    ));
}

#[test]
fn message_keeps_its_fields() {
    let m = Message::new(123456789, name("Ada"), email("ada@example.org"), contents("Hello!"));
    assert_eq!(m.timestamp(), 123456789);
    assert_eq!(m.name().as_str(), "Ada");
    assert_eq!(m.email().as_str(), "ada@example.org");
    assert_eq!(m.contents().as_str(), "Hello!");
}

#[test]
fn page_token_parses_zero() {
    let t = PageToken::try_from("0".to_string()).unwrap();
    assert_eq!(t.offset(), 0);
}

#[test]
fn page_token_parses_large_integers() {
    let t = PageToken::try_from("18446744073709551615".to_string()).unwrap();
    assert_eq!(t.offset(), usize::MAX);
}

#[test]
fn page_token_rejects_non_numeric() {
    assert!(matches!(
        PageToken::try_from("abc".to_string()),
        Err(validation::Error::InvalidPageToken)
    ));
    assert!(matches!(
        PageToken::try_from("".to_string()),
        Err(validation::Error::InvalidPageToken)
    ));
    assert!(matches!(
        PageToken::try_from("-1".to_string()),
        Err(validation::Error::InvalidPageToken)
    ));
    assert!(matches!(
        PageToken::try_from("12 ".to_string()),
        Err(validation::Error::InvalidPageToken)
    ));
    assert!(matches!(
        PageToken::try_from("18446744073709551616".to_string()),
        Err(validation::Error::InvalidPageToken)
    ));
}

#[test]
fn page_token_tolerates_plus_sign_and_leading_zeros() {
    assert_eq!(PageToken::try_from("+42".to_string()).unwrap().offset(), 42);
    assert_eq!(PageToken::try_from("007".to_string()).unwrap().offset(), 7);
}

#[test]
fn page_token_round_trips_through_its_string_form() {
    for offset in [0usize, 1, 9, 10, 99, 12345, usize::MAX] {
        let t = PageToken::new(offset);
        let s = t.to_string();
        let back = PageToken::try_from(s.clone()).unwrap();
        assert_eq!(back.offset(), offset);
        assert_eq!(back.to_string(), s);
    }
    assert_eq!(PageToken::new(42).to_string(), "42");
}
