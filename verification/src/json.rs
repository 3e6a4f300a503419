//! The JSON log-file backend behind the repository interface: the same
//! storage format and pagination logic as `repository`, packaged for the
//! embedding program's backend trait.

use vstd::prelude::*;
use crate::model::Message;
use crate::model::PageToken;
use crate::repository::Error;
use crate::repository::Repository;
use crate::repository::clamp_max;
use crate::repository::spec_list;
use crate::repository::spec_message_line;
use crate::repository::spec_offset;
use crate::codec;
use crate::validation;

verus! {

/// The log-file backend, storing one JSON record per line.
#[derive(Debug)]
pub struct JSONRepository {
    repo: Repository,
}

impl View for JSONRepository {
    type V = Seq<char>;

    closed spec fn view(&self) -> Seq<char> {
        self.repo@
    }
}

impl JSONRepository {
    /// A backend over the given database file path.
    pub fn new(filename: &str) -> (r: JSONRepository)
        ensures
            r@ == filename@,
    {
        JSONRepository { repo: Repository::new(filename) }
    }

    /// The path of the database file.
    pub fn filename(&self) -> (r: &str)
        ensures
            r@ == self@,
    {
        self.repo.filename()
    }

    /// The bytes that `create` appends to the log for `msg`.
    pub fn message_line(&self, msg: &Message) -> (r: Vec<u8>)
        ensures
            r@ == spec_message_line(msg@),
    {
        self.repo.message_line(msg)
    }

    /// Lists one page of messages from the log file's contents; see
    /// `Repository::list_messages`.
    pub fn list(
        &self,
        database_contents: &[u8],
        max_results: usize,
        page_token: Option<PageToken>,
    ) -> (r: Result<(Vec<Message>, Option<PageToken>), Error>)
        ensures
            match codec::spec_parse_file(database_contents@) {
                None => r == Err::<(Vec<Message>, Option<PageToken>), Error>(
                    Error::CannotDeserializeMessageFromDatabase,
                ),
                Some(recs) => match spec_list(
                    recs,
                    clamp_max(max_results as int),
                    spec_offset(page_token),
                ) {
                    Err((f, e)) => r == Err::<(Vec<Message>, Option<PageToken>), Error>(
                        Error::CannotMapObjectFromDatabase(f, e),
                    ),
                    Ok((ms, tok)) => r matches Ok(p) && p.0@.len() == ms.len() && (forall|i: int|
                        0 <= i < ms.len() ==> #[trigger] p.0@[i]@ == ms[i]) && (match (p.1, tok) {
                        (None, None) => true,
                        (Some(pt), Some(o)) => pt@ == o,
                        _ => false,
                    }),
                },
            },
    {
        self.repo.list_messages(database_contents, max_results, page_token)
    }
}

} // verus!
