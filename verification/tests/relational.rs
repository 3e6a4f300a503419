//! The relational backend's pure logic, exercised against the in-memory
//! model of its keyset query.

use message_log::sqlite::{page_from_rows, select_page, Error, MessageDTO};
use message_log::validation;

fn row(id: i64, ts: u128, name: &str, email: &str, contents: &str) -> MessageDTO {
    MessageDTO {
        id,
        timestamp: ts,
        name: name.to_string(),
        email: email.to_string(),
        contents: contents.to_string(),
    }
}

fn table_abc() -> Vec<MessageDTO> {
    vec![
        row(1, 10, "Ann", "ann@example.org", "first"),
        row(2, 20, "Ben", "ben@example.org", "second"),
        row(3, 30, "Cid", "cid@example.org", "third"),
    ]
}

#[test]
fn three_records_paginate_as_two_then_one() {
    // create A, B, C; list(2, None) -> [A, B] with a token;
    // list(2, token) -> [C] with no token
    let table = table_abc();

    let rows = select_page(&table, None, 2);
    let (page1, token1) = page_from_rows(rows, 2).unwrap();
    assert_eq!(page1.len(), 2);
    assert_eq!(page1[0].name().as_str(), "Ann");
    assert_eq!(page1[1].name().as_str(), "Ben");
    let token1 = token1.expect("a full page must carry a token");
    assert_eq!(token1.offset(), 2);

    let rows = select_page(&table, Some(token1.offset() as i64), 2);
    let (page2, token2) = page_from_rows(rows, 2).unwrap();
    assert_eq!(page2.len(), 1);
    assert_eq!(page2[0].name().as_str(), "Cid");
    assert!(token2.is_none());
}

#[test]
fn keyset_token_is_stable_under_inserts_between_calls() {
    let mut table = vec![
        row(1, 10, "Ann", "ann@example.org", "first"),
        row(2, 20, "Ben", "ben@example.org", "second"),
    ];

    let rows = select_page(&table, None, 2);
    let (page1, token1) = page_from_rows(rows, 2).unwrap();
    assert_eq!(page1.len(), 2);
    let token1 = token1.unwrap();

    // new rows are committed between the two calls, with fresh identities
    table.push(row(3, 30, "Cid", "cid@example.org", "third"));
    table.push(row(4, 40, "Dee", "dee@example.org", "fourth"));

    let rows = select_page(&table, Some(token1.offset() as i64), 2);
    let ids: Vec<i64> = rows.iter().map(|r| r.id()).collect();
    let (page2, _) = page_from_rows(rows, 2).unwrap();
    // nothing already seen reappears, and nothing due is skipped
    assert_eq!(ids, vec![3, 4]);
    assert_eq!(page2[0].name().as_str(), "Cid");
    assert_eq!(page2[1].name().as_str(), "Dee");
}

#[test]
fn select_respects_cursor_and_limit() {
    let table = table_abc();
    let rows = select_page(&table, Some(1), 5);
    let ids: Vec<i64> = rows.iter().map(|r| r.id()).collect();
    assert_eq!(ids, vec![2, 3]);
    let rows = select_page(&table, Some(3), 5);
    assert!(rows.is_empty());
    let rows = select_page(&table, None, 0);
    assert!(rows.is_empty());
}

#[test]
fn relational_page_clamps_like_the_contract_says() {
    let table = table_abc();
    // zero asks for the default cap
    let rows = select_page(&table, None, 100);
    let (page, next) = page_from_rows(rows, 0).unwrap();
    assert_eq!(page.len(), 3);
    assert!(next.is_none());
}

#[test]
fn corrupted_row_fails_the_whole_page() {
    let table = vec![
        row(1, 10, "Ann", "ann@example.org", "fine"),
        row(2, 20, "Ben", "ben.example.org", "email lost its at sign"),
    ];
    let rows = select_page(&table, None, 10);
    let err = page_from_rows(rows, 10).unwrap_err();
    assert!(matches!(
        err,
        Error::CouldNotMapDatabaseObject(validation::Error::InvalidEmail)
    ));
}

#[test]
fn row_exposes_its_identity() {
    let r = row(7, 1, "Ann", "ann@example.org", "x");
    assert_eq!(r.id(), 7);
}
