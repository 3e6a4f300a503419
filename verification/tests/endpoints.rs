//! The pure endpoint logic: form validation and listing parameters.

use message_log::controller::{
    ContactFormData, ControllerImpl, FormField, ListMessageEntriesQuery,
};
use message_log::repository::Repository;
use message_log::server::Server;
use message_log::validation;

fn form(name: &str, email: &str, message: &str) -> ContactFormData {
    ContactFormData {
        name: name.to_string(),
        email: email.to_string(),
        message: message.to_string(),
    }
}

#[test]
fn valid_form_becomes_a_message() {
    let m = form("Ada", "ada@example.org", "Hello!")
        .into_message(99)
        .unwrap();
    assert_eq!(m.timestamp(), 99);
    assert_eq!(m.name().as_str(), "Ada");
    assert_eq!(m.email().as_str(), "ada@example.org");
    assert_eq!(m.contents().as_str(), "Hello!");
}

#[test]
fn form_rejections_name_the_offending_field() {
    assert!(matches!(
        form("", "ada@example.org", "Hello!").into_message(0),
        Err((FormField::Name, validation::Error::TooShort))
    ));
    assert!(matches!(
        form("Ada", "nobody", "Hello!").into_message(0),
        Err((FormField::Email, validation::Error::InvalidEmail))
    ));
    assert!(matches!(
        form("Ada", "ada@example.org", "").into_message(0),
        Err((FormField::Message, validation::Error::TooShort))
    ));
    let long = "x".repeat(1025);
    assert!(matches!(
        form("Ada", "ada@example.org", &long).into_message(0),
        Err((FormField::Message, validation::Error::TooLong))
    ));
}

#[test]
fn listing_query_defaults_to_ten_results() {
    let q = ListMessageEntriesQuery {
        max_results: None,
        page_token: None,
    };
    let (m, t) = q.into_params().unwrap();
    assert_eq!(m, 10);
    assert!(t.is_none());
}

#[test]
fn listing_query_passes_an_explicit_size_and_token_through() {
    let q = ListMessageEntriesQuery {
        max_results: Some(25),
        page_token: Some("30".to_string()),
    };
    let (m, t) = q.into_params().unwrap();
    assert_eq!(m, 25);
    assert_eq!(t.unwrap().offset(), 30);
}

#[test]
fn listing_query_rejects_a_malformed_token() {
    let q = ListMessageEntriesQuery {
        max_results: None,
        page_token: Some("zebra".to_string()),
    };
    assert!(matches!(
        q.into_params(),
        Err(validation::Error::InvalidPageToken)
    ));
}

#[test]
fn composition_root_wires_controller_and_server() {
    let repo = Repository::new("db/database.json");
    let controller = ControllerImpl::new(repo);
    let server = Server::new("127.0.0.1:3000".to_string(), controller);
    assert_eq!(server.listen_address(), "127.0.0.1:3000");
    assert_eq!(server.controller().repository().filename(), "db/database.json");
}
