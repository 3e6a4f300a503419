//! The log-file backend: an append-only file of newline-terminated JSON
//! record lines, listed with offset pagination.
//!
//! The functions here are the pure part of the backend.  The embedding
//! program performs the file I/O: it appends the bytes `message_line`
//! returns, and hands the whole file contents to `list_messages`.

use vstd::prelude::*;
use vstd::utf8::encode_utf8;
use crate::codec;
use crate::codec::MessageDTO;
use crate::codec::RecordView;
use crate::model::Message;
use crate::model::MessageView;
use crate::model::PageToken;
use crate::model::wf_message;
use crate::validation;

verus! {

/// Which field of a stored record failed re-validation.
#[derive(Debug, Clone, Copy, PartialEq, Eq, Structural)]
pub enum Field {
    Name,
    Email,
    Contents,
}

impl Field {
    /// The text `describe` returns for this field.
    pub open spec fn spec_describe(&self) -> Seq<char> {
        match *self {
            Field::Name => "name"@,
            Field::Email => "email"@,
            Field::Contents => "contents"@,
        }
    }

    /// The field's name, as it appears in error messages.
    pub fn describe(&self) -> (r: String)
        ensures
            r@ == self.spec_describe(),
    {
        match self {
            Field::Name => "name".to_owned(),
            Field::Email => "email".to_owned(),
            Field::Contents => "contents".to_owned(),
        }
    }
}

/// What went wrong inside the backend.  The file I/O variants carry the
/// text of the underlying error, supplied by the code that performed the
/// I/O; the other variants arise in the pure logic here.
#[derive(Debug)]
pub enum Error {
    CannotAppendDatabaseFile(String),
    CannotDeserializeMessageFromDatabase,
    CannotMapObjectFromDatabase(Field, validation::Error),
    CannotReadDatabaseFile(String),
}

impl Error {
    /// The text `describe` returns for this failure.
    pub open spec fn spec_describe(&self) -> Seq<char> {
        match *self {
            Error::CannotAppendDatabaseFile(ref e) => "cannot append to database file: "@ + e@,
            Error::CannotDeserializeMessageFromDatabase => "cannot deserialize message from database"@,
            Error::CannotMapObjectFromDatabase(f, c) => "cannot map object from database: field "@
                + f.spec_describe() + ": "@ + c.spec_describe(),
            Error::CannotReadDatabaseFile(ref e) => "cannot read database file: "@ + e@,
        }
    }

    /// A description of the failure, naming the sub-operation.
    pub fn describe(&self) -> (r: String)
        ensures
            r@ == self.spec_describe(),
    {
        match self {
            Error::CannotAppendDatabaseFile(e) => {
                let mut s = "cannot append to database file: ".to_owned();
                s.append(e.as_str());
                s
            },
            Error::CannotDeserializeMessageFromDatabase => {
                "cannot deserialize message from database".to_owned()
            },
            Error::CannotMapObjectFromDatabase(field, cause) => {
                let mut s = "cannot map object from database: field ".to_owned();
                s.append(field.describe().as_str());
                s.append(": ");
                s.append(cause.describe().as_str());
                s
            },
            Error::CannotReadDatabaseFile(e) => {
                let mut s = "cannot read database file: ".to_owned();
                s.append(e.as_str());
                s
            },
        }
    }
}

/// Re-validates a stored record, exactly as fresh input is validated:
/// the checks and their order mirror the value-type constructors.
pub open spec fn spec_map_record(v: RecordView) -> Result<MessageView, (Field, validation::Error)> {
    let nn = encode_utf8(v.name).len();
    let ne = encode_utf8(v.email).len();
    let nc = encode_utf8(v.contents).len();
    if nn == 0 {
        Err((Field::Name, validation::Error::TooShort))
    } else if nn > 255 {
        Err((Field::Name, validation::Error::TooLong))
    } else if ne == 0 {
        Err((Field::Email, validation::Error::TooShort))
    } else if ne > 255 {
        Err((Field::Email, validation::Error::TooLong))
    } else if !v.email.contains('@') {
        Err((Field::Email, validation::Error::InvalidEmail))
    } else if nc == 0 {
        Err((Field::Contents, validation::Error::TooShort))
    } else if nc > 1024 {
        Err((Field::Contents, validation::Error::TooLong))
    } else {
        Ok(MessageView { timestamp: v.timestamp, name: v.name, email: v.email, contents: v.contents })
    }
}

/// Re-validates a window of records in order, stopping at the first
/// failure (the whole page fails; no record is silently skipped).
pub open spec fn spec_map_window(w: Seq<RecordView>) -> Result<
    Seq<MessageView>,
    (Field, validation::Error),
>
    decreases w.len(),
{
    if w.len() == 0 {
        Ok(Seq::empty())
    } else {
        match spec_map_record(w[0]) {
            Err(e) => Err(e),
            Ok(mv) => match spec_map_window(w.drop_first()) {
                Err(e) => Err(e),
                Ok(rest) => Ok(seq![mv] + rest),
            },
        }
    }
}

/// A successfully mapped window keeps its length.
pub proof fn lemma_map_window_len(w: Seq<RecordView>)
    ensures
        spec_map_window(w) matches Ok(ms) ==> ms.len() == w.len(),
    decreases w.len(),
{
    if w.len() > 0 {
        lemma_map_window_len(w.drop_first());
    }
}

/// A successfully mapped window maps each record in place.
pub proof fn lemma_map_window_index(w: Seq<RecordView>)
    ensures
        spec_map_window(w) matches Ok(ms) ==> ms.len() == w.len() && (forall|i: int|
            0 <= i < w.len() ==> spec_map_record(#[trigger] w[i]) == Ok::<
                MessageView,
                (Field, validation::Error),
            >(ms[i])),
    decreases w.len(),
{
    lemma_map_window_len(w);
    if w.len() > 0 {
        lemma_map_window_index(w.drop_first());
        if spec_map_window(w) is Ok {
            let ms = spec_map_window(w).unwrap();
            let rest = spec_map_window(w.drop_first()).unwrap();
            assert forall|i: int| 0 <= i < w.len() implies spec_map_record(#[trigger] w[i]) == Ok::<
                MessageView,
                (Field, validation::Error),
            >(ms[i]) by {
                if i > 0 {
                    assert(w.drop_first()[i - 1] == w[i]);
                    assert(ms[i] == rest[i - 1]);
                }
            }
        }
    }
}

/// The effective page size: zero asks for the default, and anything above
/// the internal cap is clamped to it.
pub open spec fn clamp_max(n: int) -> int {
    if n == 0 {
        100
    } else if n > 100 {
        100
    } else {
        n
    }
}

/// The resume position a token denotes, with the start of the log when no
/// token is given.
pub open spec fn spec_offset(t: Option<PageToken>) -> int {
    match t {
        None => 0,
        Some(p) => p@,
    }
}

/// The window of records an offset-paginated listing covers: up to `m`
/// records starting at position `off`.
pub open spec fn spec_window(recs: Seq<RecordView>, m: int, off: int) -> Seq<RecordView> {
    let lo = if off > recs.len() {
        recs.len() as int
    } else {
        off
    };
    let hi = if off + m > recs.len() {
        recs.len() as int
    } else {
        off + m
    };
    recs.subrange(lo, hi)
}

/// The outcome of a listing over already-parsed records: the mapped page
/// and, exactly when the page is full, the next offset token.
pub open spec fn spec_list(recs: Seq<RecordView>, m: int, off: int) -> Result<
    (Seq<MessageView>, Option<int>),
    (Field, validation::Error),
> {
    let w = spec_window(recs, m, off);
    match spec_map_window(w) {
        Err(e) => Err(e),
        Ok(ms) => Ok((ms, if w.len() == m {
            Some(off + m)
        } else {
            None
        })),
    }
}

/// The bytes appended to the log for one message: its canonical record
/// line and a newline.
pub open spec fn spec_message_line(m: MessageView) -> Seq<u8> {
    codec::spec_encode_record(codec::record_of(m)) + seq![0x0a]
}

impl MessageDTO {
    /// Re-validates a stored record through the same constructors used
    /// for fresh input; a failure names the offending field.
    pub fn try_into(&self) -> (r: Result<Message, Error>)
        ensures
            match spec_map_record(self@) {
                Ok(mv) => r matches Ok(m) && m@ == mv,
                Err((f, e)) => r == Err::<Message, Error>(Error::CannotMapObjectFromDatabase(f, e)),
            },
    {
        let name = match crate::model::Name::try_from(self.name.clone()) {
            Ok(n) => n,
            Err(e) => {
                return Err(Error::CannotMapObjectFromDatabase(Field::Name, e));
            },
        };
        let email = match crate::model::Email::try_from(self.email.clone()) {
            Ok(n) => n,
            Err(e) => {
                return Err(Error::CannotMapObjectFromDatabase(Field::Email, e));
            },
        };
        let contents = match crate::model::Contents::try_from(self.contents.clone()) {
            Ok(n) => n,
            Err(e) => {
                return Err(Error::CannotMapObjectFromDatabase(Field::Contents, e));
            },
        };
        Ok(Message::new(self.timestamp, name, email, contents))
    }
}

/// The log-file backend.  It knows the path of its database file; the
/// embedding program performs the reads and appends against that path.
#[derive(Debug)]
pub struct Repository {
    filename: String,
}

impl View for Repository {
    type V = Seq<char>;

    closed spec fn view(&self) -> Seq<char> {
        self.filename@
    }
}

impl Repository {
    /// A backend over the given database file path.
    pub fn new(filename: &str) -> (r: Repository)
        ensures
            r@ == filename@,
    {
        Repository { filename: filename.to_owned() }
    }

    /// The path of the database file.
    pub fn filename(&self) -> (r: &str)
        ensures
            r@ == self@,
    {
        self.filename.as_str()
    }

    /// The bytes that `create` appends to the log for `msg`: one
    /// newline-terminated canonical record line.  Appending exactly these
    /// bytes keeps the file parsable and adds this one record (see
    /// `lemma_create_then_list`).
    pub fn message_line(&self, msg: &Message) -> (r: Vec<u8>)
        ensures
            r@ == spec_message_line(msg@),
    {
        let dto = MessageDTO::from(msg);
        let mut line = codec::encode_record(&dto);
        line.push(0x0a);
        proof {
            assert(line@ =~= spec_message_line(msg@));
        }
        line
    }

    /// Lists one page of messages from the log file's contents: parses
    /// every stored record, takes up to `max_results` records (clamped)
    /// starting at the offset the token denotes, re-validates exactly the
    /// records of that window, and hands out a next-page token exactly
    /// when the page is full.
    #[verifier::rlimit(100)]
    pub fn list_messages(
        &self,
        database_contents: &[u8],
        max_results: usize,
        page_token: Option<PageToken>,
    ) -> (r: Result<(Vec<Message>, Option<PageToken>), Error>)
        ensures
            match codec::spec_parse_file(database_contents@) {
                None => r == Err::<(Vec<Message>, Option<PageToken>), Error>(
                    Error::CannotDeserializeMessageFromDatabase,
                ),
                Some(recs) => match spec_list(
                    recs,
                    clamp_max(max_results as int),
                    spec_offset(page_token),
                ) {
                    Err((f, e)) => r == Err::<(Vec<Message>, Option<PageToken>), Error>(
                        Error::CannotMapObjectFromDatabase(f, e),
                    ),
                    Ok((ms, tok)) => r matches Ok(p) && p.0@.len() == ms.len() && (forall|i: int|
                        0 <= i < ms.len() ==> #[trigger] p.0@[i]@ == ms[i]) && (match (p.1, tok) {
                        (None, None) => true,
                        (Some(pt), Some(o)) => pt@ == o,
                        _ => false,
                    }),
                },
            },
    {
        let m: usize = if max_results == 0 {
            100
        } else if max_results > 100 {
            100
        } else {
            max_results
        };
        let off: usize = match page_token {
            Some(t) => t.offset(),
            None => 0,
        };
        let dtos = match codec::parse_file(database_contents) {
            Some(d) => d,
            None => {
                return Err(Error::CannotDeserializeMessageFromDatabase);
            },
        };
        let ghost recs = codec::spec_parse_file(database_contents@).unwrap();
        let len = dtos.len();
        let lo: usize = if off > len {
            len
        } else {
            off
        };
        let take_n: usize = if len - lo < m {
            len - lo
        } else {
            m
        };
        let hi = lo + take_n;
        let ghost w = spec_window(recs, m as int, off as int);
        proof {
            assert(w =~= recs.subrange(lo as int, hi as int));
        }
        let mut msgs: Vec<Message> = Vec::new();
        let ghost mut acc: Seq<MessageView> = Seq::empty();
        let mut i: usize = lo;
        proof {
            assert(w.skip(0) =~= w);
            if spec_map_window(w) is Ok {
                assert(Seq::<MessageView>::empty() + spec_map_window(w).unwrap()
                    =~= spec_map_window(w).unwrap());
            }
        }
        while i < hi
            invariant
                codec::spec_parse_file(database_contents@) == Some(recs),
                m as int == clamp_max(max_results as int),
                off as int == spec_offset(page_token),
                w == spec_window(recs, m as int, off as int),
                lo <= i <= hi,
                hi == lo + take_n,
                hi <= dtos@.len(),
                dtos@.len() == recs.len(),
                forall|q: int| 0 <= q < recs.len() ==> #[trigger] dtos@[q]@ == recs[q],
                w == recs.subrange(lo as int, hi as int),
                msgs@.len() == i - lo,
                acc.len() == i - lo,
                forall|q: int| 0 <= q < acc.len() ==> #[trigger] msgs@[q]@ == acc[q],
                match spec_map_window(w.skip(i - lo)) {
                    Ok(rest) => spec_map_window(w) matches Ok(all) && all == acc + rest,
                    Err(e) => spec_map_window(w) == Err::<Seq<MessageView>, _>(e),
                },
            decreases hi - i,
        {
            let ghost wrem = w.skip(i - lo);
            proof {
                assert(wrem[0] == w[i - lo]);
                assert(w[i - lo] == recs[i as int]);
                assert(dtos@[i as int]@ == recs[i as int]);
            }
            let msg = match MessageDTO::try_into(&dtos[i]) {
                Ok(msg) => msg,
                Err(e) => {
                    proof {
                        match spec_map_record(wrem[0]) {
                            Err(fe) => {
                                assert(spec_map_window(wrem) == Err::<
                                    Seq<MessageView>,
                                    (Field, validation::Error),
                                >(fe));
                            },
                            Ok(_) => {
                                assert(false);
                            },
                        }
                    }
                    return Err(e);
                },
            };
            proof {
                let mv = spec_map_record(wrem[0]).unwrap();
                let wrem2 = w.skip(i - lo + 1);
                assert(wrem.drop_first() =~= wrem2);
                match spec_map_window(wrem2) {
                    Ok(rest2) => {
                        assert(spec_map_window(wrem) == Ok::<_, (Field, validation::Error)>(
                            seq![mv] + rest2,
                        ));
                        assert((acc + seq![mv]) + rest2 =~= acc + (seq![mv] + rest2));
                    },
                    Err(e2) => {
                        assert(spec_map_window(wrem) == Err::<Seq<MessageView>, _>(e2));
                    },
                }
                acc = acc + seq![mv];
            }
            msgs.push(msg);
            i = i + 1;
        }
        proof {
            assert(w.skip(hi - lo) =~= Seq::<RecordView>::empty());
            assert(acc + Seq::<MessageView>::empty() =~= acc);
        }
        let next_page_token = if take_n == m {
            Some(PageToken::new(hi))
        } else {
            None
        };
        Ok((msgs, next_page_token))
    }
}

/// Page-boundary law: a listing hands out a next-page token exactly when
/// the returned page is full, and never on a short page.
pub proof fn lemma_page_boundary(recs: Seq<RecordView>, m: int, off: int)
    requires
        1 <= m,
        0 <= off,
    ensures
        match spec_list(recs, m, off) {
            Ok((ms, tok)) => tok is Some <==> ms.len() == m,
            Err(_) => true,
        },
{
    lemma_map_window_len(spec_window(recs, m, off));
}

/// Offset-pagination drift, documented rather than fixed: when a record
/// is inserted before the resume position of an offset token, the next
/// page shifts back by one position, so the window equals what a listing
/// from one position earlier would have seen before the insertion — the
/// record last seen at the old position is served again.
pub proof fn lemma_offset_drift(recs: Seq<RecordView>, x: RecordView, p: int, m: int, off: int)
    requires
        0 <= p < off <= recs.len(),
        1 <= m,
    ensures
        spec_window(recs.take(p) + seq![x] + recs.skip(p), m, off) == spec_window(
            recs,
            m,
            off - 1,
        ),
{
    let recs2 = recs.take(p) + seq![x] + recs.skip(p);
    assert(recs2.len() == recs.len() + 1);
    assert(spec_window(recs2, m, off) =~= spec_window(recs, m, off - 1));
}

/// Round trip of the log file: appending the stored line of a
/// well-formed message to a parsable file parses back to the old records
/// followed by that message's record, and re-validating that record gives
/// back the message's fields byte for byte.
pub proof fn lemma_create_then_list(file: Seq<u8>, m: MessageView)
    requires
        wf_message(m),
        codec::spec_parse_file(file) is Some,
    ensures
        codec::spec_parse_file(file + spec_message_line(m)) == Some(
            codec::spec_parse_file(file).unwrap().push(codec::record_of(m)),
        ),
        spec_map_record(codec::record_of(m)) == Ok::<MessageView, (Field, validation::Error)>(m),
{
    let line = codec::spec_encode_record(codec::record_of(m));
    assert(file + spec_message_line(m) =~= file + line + seq![0x0au8]);
    codec::lemma_parse_file_snoc(file, codec::record_of(m));
}

/// A just-created message is visible to a listing whose window covers its
/// position, with its fields intact.
pub proof fn lemma_created_message_listed(recs: Seq<RecordView>, m: MessageView, mm: int, off: int)
    requires
        wf_message(m),
        0 <= off <= recs.len() < off + mm,
        spec_list(recs.push(codec::record_of(m)), mm, off) is Ok,
    ensures
        ({
            let ms = spec_list(recs.push(codec::record_of(m)), mm, off).unwrap().0;
            recs.len() - off < ms.len() && ms[recs.len() - off] == m
        }),
{
    let recs2 = recs.push(codec::record_of(m));
    let w = spec_window(recs2, mm, off);
    assert(w[recs.len() - off] == recs2[recs.len() as int]);
    lemma_map_window_index(w);
}

} // verus!
