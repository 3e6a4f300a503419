//! The pure part of the HTTP endpoints: turning raw form and query input
//! into validated messages and listing parameters.  Routing, templating
//! and response assembly live in the embedding program.

use vstd::prelude::*;
use vstd::utf8::encode_utf8;
use crate::model::Email;
use crate::model::Contents;
use crate::model::Message;
use crate::model::MessageView;
use crate::model::Name;
use crate::model::PageToken;
use crate::model::token_digits;
use crate::model::valid_contents;
use crate::model::valid_email;
use crate::model::valid_name;
use crate::model::valid_token_bytes;
use crate::numeral;
use crate::validation;

verus! {

/// The endpoint state: whichever repository backend the composition root
/// injected.
#[derive(Debug, Clone)]
pub struct ControllerImpl<R> {
    repository: R,
}

impl<R> ControllerImpl<R> {
    /// The injected repository.
    pub closed spec fn spec_repository(&self) -> R {
        self.repository
    }

    /// Wraps a repository for the endpoints.
    pub fn new(repository: R) -> (r: ControllerImpl<R>)
        ensures
            r.spec_repository() == repository,
    {
        ControllerImpl { repository }
    }

    /// The injected repository.
    pub fn repository(&self) -> (r: &R)
        ensures
            *r == self.spec_repository(),
    {
        &self.repository
    }
}

/// Which form field was rejected.
#[derive(Debug, Clone, Copy, PartialEq, Eq, Structural)]
pub enum FormField {
    Name,
    Email,
    Message,
}

impl FormField {
    /// The text `describe` returns for this field.
    pub open spec fn spec_describe(&self) -> Seq<char> {
        match *self {
            FormField::Name => "name"@,
            FormField::Email => "email"@,
            FormField::Message => "message"@,
        }
    }

    /// The field's name as it appears in the form.
    pub fn describe(&self) -> (r: String)
        ensures
            r@ == self.spec_describe(),
    {
        match self {
            FormField::Name => "name".to_owned(),
            FormField::Email => "email".to_owned(),
            FormField::Message => "message".to_owned(),
        }
    }
}

/// The outcome of validating a contact form: a message view, or the
/// first offending field with the reason, fields checked in form order.
pub open spec fn spec_form(
    name: Seq<char>,
    email: Seq<char>,
    message: Seq<char>,
    timestamp: int,
) -> Result<MessageView, (FormField, validation::Error)> {
    let nn = encode_utf8(name).len();
    let ne = encode_utf8(email).len();
    let nc = encode_utf8(message).len();
    if nn == 0 {
        Err((FormField::Name, validation::Error::TooShort))
    } else if nn > 255 {
        Err((FormField::Name, validation::Error::TooLong))
    } else if ne == 0 {
        Err((FormField::Email, validation::Error::TooShort))
    } else if ne > 255 {
        Err((FormField::Email, validation::Error::TooLong))
    } else if !email.contains('@') {
        Err((FormField::Email, validation::Error::InvalidEmail))
    } else if nc == 0 {
        Err((FormField::Message, validation::Error::TooShort))
    } else if nc > 1024 {
        Err((FormField::Message, validation::Error::TooLong))
    } else {
        Ok(MessageView { timestamp: timestamp, name: name, email: email, contents: message })
    }
}

/// A submitted contact form, as decoded by the HTTP layer.
#[derive(Debug, Clone)]
pub struct ContactFormData {
    pub name: String,
    pub email: String,
    pub message: String,
}

impl ContactFormData {
    /// Validates the form into a message created at `timestamp`
    /// (nanoseconds since the Unix epoch), naming the first offending
    /// field on failure.
    pub fn into_message(self, timestamp: u128) -> (r: Result<
        Message,
        (FormField, validation::Error),
    >)
        ensures
            match spec_form(self.name@, self.email@, self.message@, timestamp as int) {
                Ok(mv) => r matches Ok(m) && m@ == mv,
                Err(fe) => r == Err::<Message, (FormField, validation::Error)>(fe),
            },
    {
        let name = match Name::try_from(self.name) {
            Ok(n) => n,
            Err(e) => {
                return Err((FormField::Name, e));
            },
        };
        let email = match Email::try_from(self.email) {
            Ok(n) => n,
            Err(e) => {
                return Err((FormField::Email, e));
            },
        };
        let contents = match Contents::try_from(self.message) {
            Ok(n) => n,
            Err(e) => {
                return Err((FormField::Message, e));
            },
        };
        Ok(Message::new(timestamp, name, email, contents))
    }
}

/// The query parameters of the message-listing endpoint, as decoded by
/// the HTTP layer.
#[derive(Debug, Clone)]
pub struct ListMessageEntriesQuery {
    pub max_results: Option<usize>,
    pub page_token: Option<String>,
}

impl ListMessageEntriesQuery {
    /// Resolves the query into listing parameters: the caller-facing
    /// default page size when none was asked for, and the parsed resume
    /// token, rejected exactly when it is not a plain non-negative
    /// number.
    pub fn into_params(self) -> (r: Result<(usize, Option<PageToken>), validation::Error>)
        ensures
            ({
                let m = match self.max_results {
                    None => 10int,
                    Some(v) => v as int,
                };
                match self.page_token {
                    None => r matches Ok(p) && p.0 == m && p.1 is None,
                    Some(s) => {
                        if valid_token_bytes(encode_utf8(s@)) {
                            r matches Ok(p) && p.0 == m && (p.1 matches Some(t) && t@
                                == numeral::digits_value(token_digits(encode_utf8(s@))))
                        } else {
                            r == Err::<(usize, Option<PageToken>), validation::Error>(
                                validation::Error::InvalidPageToken,
                            )
                        }
                    },
                }
            }),
    {
        let m = match self.max_results {
            None => 10,
            Some(v) => v,
        };
        let token = match self.page_token {
            None => None,
            Some(s) => match PageToken::try_from(s) {
                Ok(t) => Some(t),
                Err(e) => {
                    return Err(e);
                },
            },
        };
        Ok((m, token))
    }
}

} // verus!
