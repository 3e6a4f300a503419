//! The relational backend: a table with an auto-incrementing identity
//! column, listed with keyset pagination.
//!
//! The SQL round-trips are performed by the embedding program.  The pure
//! logic lives here: the shape of the query (`spec_select` models the
//! SELECT's `id > cursor ORDER BY id LIMIT n`), the query parameters, the
//! row-to-message mapping, and the next-token computation.  Anchoring the
//! cursor on row identity instead of position is what makes this backend
//! stable under concurrent inserts (`lemma_keyset_stability`).

use vstd::prelude::*;
use crate::codec::RecordView;
use crate::model::Message;
use crate::model::MessageView;
use crate::model::PageToken;
use crate::repository::Field;
use crate::repository::clamp_max;
use crate::repository::spec_map_record;
use crate::repository::spec_map_window;
use crate::validation;

verus! {

/// What went wrong in the relational backend.  The database variant
/// carries the text of the underlying error, supplied by the code that
/// performed the query.
#[derive(Debug)]
pub enum Error {
    SqlxError(String),
    CouldNotMapDatabaseObject(validation::Error),
}

impl Error {
    /// The text `describe` returns for this failure.
    pub open spec fn spec_describe(&self) -> Seq<char> {
        match *self {
            Error::SqlxError(ref e) => "sqlx error: "@ + e@,
            Error::CouldNotMapDatabaseObject(c) => "could not map database object: "@
                + c.spec_describe(),
        }
    }

    /// A description of the failure.
    pub fn describe(&self) -> (r: String)
        ensures
            r@ == self.spec_describe(),
    {
        match self {
            Error::SqlxError(e) => {
                let mut s = "sqlx error: ".to_owned();
                s.append(e.as_str());
                s
            },
            Error::CouldNotMapDatabaseObject(cause) => {
                let mut s = "could not map database object: ".to_owned();
                s.append(cause.describe().as_str());
                s
            },
        }
    }
}

/// The mathematical content of one table row: its identity and the
/// stored record.
pub struct RowView {
    pub id: int,
    pub record: RecordView,
}

/// One row of the message table as read back from the database: the
/// backend-assigned identity plus the stored fields, the timestamp as
/// nanoseconds since the Unix epoch.
#[derive(Debug)]
pub struct MessageDTO {
    pub id: i64,
    pub timestamp: u128,
    pub name: String,
    pub email: String,
    pub contents: String,
}

impl View for MessageDTO {
    type V = RowView;

    open spec fn view(&self) -> RowView {
        RowView {
            id: self.id as int,
            record: RecordView {
                timestamp: self.timestamp as int,
                name: self.name@,
                email: self.email@,
                contents: self.contents@,
            },
        }
    }
}

impl Clone for MessageDTO {
    fn clone(&self) -> (r: Self)
        ensures
            r@ == self@,
    {
        MessageDTO {
            id: self.id,
            timestamp: self.timestamp,
            name: self.name.clone(),
            email: self.email.clone(),
            contents: self.contents.clone(),
        }
    }
}

impl MessageDTO {
    /// The backend-assigned identity of this row.
    pub fn id(&self) -> (r: i64)
        ensures
            r as int == self@.id,
    {
        self.id
    }

    /// Re-validates a stored row through the same constructors used for
    /// fresh input.
    pub fn try_into(&self) -> (r: Result<Message, Error>)
        ensures
            match spec_map_record(self@.record) {
                Ok(mv) => r matches Ok(m) && m@ == mv,
                Err((f, e)) => r == Err::<Message, Error>(Error::CouldNotMapDatabaseObject(e)),
            },
    {
        let name = match crate::model::Name::try_from(self.name.clone()) {
            Ok(n) => n,
            Err(e) => {
                return Err(Error::CouldNotMapDatabaseObject(e));
            },
        };
        let email = match crate::model::Email::try_from(self.email.clone()) {
            Ok(n) => n,
            Err(e) => {
                return Err(Error::CouldNotMapDatabaseObject(e));
            },
        };
        let contents = match crate::model::Contents::try_from(self.contents.clone()) {
            Ok(n) => n,
            Err(e) => {
                return Err(Error::CouldNotMapDatabaseObject(e));
            },
        };
        Ok(Message::new(self.timestamp, name, email, contents))
    }
}

/// Whether a row lies past the cursor: every row qualifies when no
/// cursor is given.
pub open spec fn row_past_cursor(r: RowView, cursor: Option<int>) -> bool {
    match cursor {
        None => true,
        Some(c) => r.id > c,
    }
}

/// The rows the relational SELECT returns from a table in stored order:
/// the first `limit` rows lying past the cursor.
pub open spec fn spec_select(table: Seq<RowView>, cursor: Option<int>, limit: int) -> Seq<RowView>
    decreases table.len(),
{
    if table.len() == 0 || limit <= 0 {
        Seq::empty()
    } else if row_past_cursor(table[0], cursor) {
        seq![table[0]] + spec_select(table.drop_first(), cursor, limit - 1)
    } else {
        spec_select(table.drop_first(), cursor, limit)
    }
}

/// The SELECT never returns more rows than its limit.
pub proof fn lemma_select_bounded(table: Seq<RowView>, cursor: Option<int>, limit: int)
    ensures
        spec_select(table, cursor, limit).len() <= (if limit >= 0 {
            limit
        } else {
            0
        }),
    decreases table.len(),
{
    if table.len() > 0 && limit > 0 {
        lemma_select_bounded(table.drop_first(), cursor, limit - 1);
        lemma_select_bounded(table.drop_first(), cursor, limit);
    }
}

/// Every row the SELECT returns lies past the cursor: a resumed listing
/// never serves an already-seen row again.
pub proof fn lemma_select_past_cursor(table: Seq<RowView>, cursor: Option<int>, limit: int)
    ensures
        forall|i: int|
            0 <= i < spec_select(table, cursor, limit).len() ==> row_past_cursor(
                #[trigger] spec_select(table, cursor, limit)[i],
                cursor,
            ),
    decreases table.len(),
{
    if table.len() > 0 && limit > 0 {
        lemma_select_past_cursor(table.drop_first(), cursor, limit - 1);
        lemma_select_past_cursor(table.drop_first(), cursor, limit);
        let sel = spec_select(table, cursor, limit);
        if row_past_cursor(table[0], cursor) {
            let rest = spec_select(table.drop_first(), cursor, limit - 1);
            assert(sel == seq![table[0]] + rest);
            assert forall|i: int| 0 <= i < sel.len() implies row_past_cursor(
                #[trigger] sel[i],
                cursor,
            ) by {
                if i > 0 {
                    assert(sel[i] == rest[i - 1]);
                } else {
                    assert(sel[0] == table[0]);
                }
            }
        } else {
            assert(sel == spec_select(table.drop_first(), cursor, limit));
        }
    }
}

/// The SELECT distributes over appending rows to the table: the rows of
/// the old table that were due are served first, and appended rows only
/// fill whatever room the limit leaves.
pub proof fn lemma_select_concat(a: Seq<RowView>, b: Seq<RowView>, cursor: Option<int>, limit: int)
    ensures
        spec_select(a + b, cursor, limit) == spec_select(a, cursor, limit) + spec_select(
            b,
            cursor,
            limit - spec_select(a, cursor, limit).len(),
        ),
    decreases a.len(),
{
    if a.len() == 0 {
        assert(a + b =~= b);
        assert(spec_select(a, cursor, limit) =~= Seq::<RowView>::empty());
        assert(Seq::<RowView>::empty() + spec_select(b, cursor, limit) =~= spec_select(
            b,
            cursor,
            limit,
        ));
    } else if limit <= 0 {
        assert(spec_select(a + b, cursor, limit) =~= Seq::<RowView>::empty());
        assert(spec_select(a, cursor, limit) =~= Seq::<RowView>::empty());
        assert(spec_select(b, cursor, limit) =~= Seq::<RowView>::empty());
        assert(Seq::<RowView>::empty() + Seq::<RowView>::empty() =~= Seq::<RowView>::empty());
    } else {
        assert((a + b).drop_first() =~= a.drop_first() + b);
        assert((a + b)[0] == a[0]);
        if row_past_cursor(a[0], cursor) {
            lemma_select_concat(a.drop_first(), b, cursor, limit - 1);
            let sa = spec_select(a.drop_first(), cursor, limit - 1);
            let sb = spec_select(b, cursor, limit - 1 - sa.len());
            assert(seq![a[0]] + (sa + sb) =~= (seq![a[0]] + sa) + sb);
        } else {
            lemma_select_concat(a.drop_first(), b, cursor, limit);
        }
    }
}

/// Keyset stability: after new rows are appended to the table, a listing
/// resumed from a cursor serves no already-seen row again, and the rows
/// of the old table that were due are still served, in order, before any
/// new row.
pub proof fn lemma_keyset_stability(
    table: Seq<RowView>,
    appended: Seq<RowView>,
    c: int,
    limit: int,
)
    ensures
        forall|i: int|
            0 <= i < spec_select(table + appended, Some(c), limit).len() ==> #[trigger] spec_select(
                table + appended,
                Some(c),
                limit,
            )[i].id > c,
        ({
            let old_page = spec_select(table, Some(c), limit);
            let new_page = spec_select(table + appended, Some(c), limit);
            old_page.len() <= new_page.len() && (forall|i: int|
                0 <= i < old_page.len() ==> #[trigger] new_page[i] == old_page[i])
        }),
{
    lemma_select_past_cursor(table + appended, Some(c), limit);
    lemma_select_concat(table, appended, Some(c), limit);
}

/// The LIMIT bound by the relational query: the clamped page size.
pub fn query_limit(max_results: usize) -> (r: usize)
    ensures
        r as int == clamp_max(max_results as int),
{
    if max_results == 0 {
        100
    } else if max_results > 100 {
        100
    } else {
        max_results
    }
}

/// The cursor bound by the relational query.  A resume position beyond
/// the largest possible identity is saturated: no row can lie past
/// either value, so the page served is the same.
pub fn query_cursor(page_token: Option<PageToken>) -> (r: Option<i64>)
    ensures
        match (page_token, r) {
            (None, None) => true,
            (Some(t), Some(c)) => c as int == (if t@ > i64::MAX {
                i64::MAX as int
            } else {
                t@
            }),
            _ => false,
        },
{
    match page_token {
        None => None,
        Some(t) => {
            let off = t.offset();
            if off as u64 > i64::MAX as u64 {
                Some(i64::MAX)
            } else {
                Some(off as i64)
            }
        },
    }
}

/// The records stored in a sequence of rows.
pub open spec fn rows_records(rows: Seq<RowView>) -> Seq<RecordView> {
    rows.map_values(|r: RowView| r.record)
}

/// The outcome of a relational listing over the rows the query returned:
/// every row re-validated in order (the whole page fails on the first bad
/// row), and the last row's identity as the next keyset token exactly
/// when the page is full.
pub open spec fn spec_page(rows: Seq<RowView>, m: int) -> Result<
    (Seq<MessageView>, Option<int>),
    validation::Error,
> {
    match spec_map_window(rows_records(rows)) {
        Err((f, e)) => Err(e),
        Ok(ms) => Ok(
            (
                ms,
                if rows.len() < m || rows.len() == 0 {
                    None
                } else {
                    Some(rows.last().id)
                },
            ),
        ),
    }
}

/// The in-memory model of the relational query, usable as a fake backend
/// in tests: returns the first `limit` rows of `table` lying past the
/// cursor, in stored order.
pub fn select_page(table: &Vec<MessageDTO>, cursor: Option<i64>, limit: usize) -> (r: Vec<
    MessageDTO,
>)
    ensures
        ({
            let tv = table@.map_values(|d: MessageDTO| d@);
            let cv = match cursor {
                None => None,
                Some(c) => Some(c as int),
            };
            let sel = spec_select(tv, cv, limit as int);
            r@.len() == sel.len() && (forall|i: int|
                0 <= i < sel.len() ==> #[trigger] r@[i]@ == sel[i])
        }),
{
    let ghost tv = table@.map_values(|d: MessageDTO| d@);
    let ghost cv: Option<int> = match cursor {
        None => None,
        Some(c) => Some(c as int),
    };
    let mut out: Vec<MessageDTO> = Vec::new();
    let mut i: usize = 0;
    proof {
        assert(tv.skip(0) =~= tv);
        assert(Seq::<RowView>::empty() + spec_select(tv, cv, limit as int) =~= spec_select(
            tv,
            cv,
            limit as int,
        ));
    }
    while i < table.len()
        invariant
            0 <= i <= table@.len(),
            tv == table@.map_values(|d: MessageDTO| d@),
            cv == match cursor {
                None => None::<int>,
                Some(c) => Some(c as int),
            },
            out@.len() <= limit,
            spec_select(tv, cv, limit as int) == out@.map_values(|d: MessageDTO| d@)
                + spec_select(tv.skip(i as int), cv, limit - out@.len()),
        decreases table@.len() - i,
    {
        let ghost rem = tv.skip(i as int);
        proof {
            assert(rem[0] == tv[i as int]);
            assert(tv[i as int] == table@[i as int]@);
            assert(rem.drop_first() =~= tv.skip(i as int + 1));
        }
        let row = &table[i];
        let passes = match cursor {
            None => true,
            Some(c) => row.id > c,
        };
        if passes && out.len() < limit {
            let ghost old_out = out@;
            out.push(row.clone());
            proof {
                assert(out@.map_values(|d: MessageDTO| d@) =~= old_out.map_values(
                    |d: MessageDTO| d@,
                ).push(tv[i as int]));
                assert(old_out.map_values(|d: MessageDTO| d@) + (seq![tv[i as int]] + spec_select(
                    tv.skip(i as int + 1),
                    cv,
                    limit - old_out.len() - 1,
                )) =~= out@.map_values(|d: MessageDTO| d@) + spec_select(
                    tv.skip(i as int + 1),
                    cv,
                    limit - out@.len(),
                ));
            }
        } else {
            proof {
                if passes {
                    assert(out@.len() == limit);
                    assert(spec_select(rem, cv, 0) =~= Seq::<RowView>::empty());
                    assert(spec_select(tv.skip(i as int + 1), cv, 0) =~= Seq::<RowView>::empty());
                }
            }
        }
        i = i + 1;
    }
    proof {
        assert(tv.skip(tv.len() as int) =~= Seq::<RowView>::empty());
        assert(out@.map_values(|d: MessageDTO| d@) + Seq::<RowView>::empty() =~= out@.map_values(
            |d: MessageDTO| d@,
        ));
    }
    out
}

/// Turns the rows the relational query returned into a page of messages
/// and the next keyset token: rows are re-validated in order (the whole
/// page fails on the first bad row), and the last row's identity becomes
/// the token exactly when the page is full.
#[verifier::rlimit(100)]
pub fn page_from_rows(rows: Vec<MessageDTO>, max_results: usize) -> (r: Result<
    (Vec<Message>, Option<PageToken>),
    Error,
>)
    requires
        forall|i: int| 0 <= i < rows@.len() ==> 0 <= #[trigger] rows@[i]@.id <= usize::MAX,
    ensures
        ({
            let rv = rows@.map_values(|d: MessageDTO| d@);
            match spec_page(rv, clamp_max(max_results as int)) {
                Err(e) => r == Err::<(Vec<Message>, Option<PageToken>), Error>(
                    Error::CouldNotMapDatabaseObject(e),
                ),
                Ok((ms, tok)) => r matches Ok(p) && p.0@.len() == ms.len() && (forall|i: int|
                    0 <= i < ms.len() ==> #[trigger] p.0@[i]@ == ms[i]) && (match (p.1, tok) {
                    (None, None) => true,
                    (Some(pt), Some(o)) => pt@ == o,
                    _ => false,
                }),
            }
        }),
{
    let ghost rv = rows@.map_values(|d: MessageDTO| d@);
    let ghost recs = rows_records(rv);
    let m = query_limit(max_results);
    let next_page_token = if rows.len() < m || rows.len() == 0 {
        None
    } else {
        let id = rows[rows.len() - 1].id;
        proof {
            assert(rows@[rows@.len() - 1]@.id == id as int);
            assert(rv[rv.len() - 1] == rows@[rows@.len() - 1]@);
        }
        Some(PageToken::new(id as usize))
    };
    let mut msgs: Vec<Message> = Vec::new();
    let ghost mut acc: Seq<MessageView> = Seq::empty();
    let mut i: usize = 0;
    proof {
        assert(recs.skip(0) =~= recs);
        if spec_map_window(recs) is Ok {
            assert(Seq::<MessageView>::empty() + spec_map_window(recs).unwrap()
                =~= spec_map_window(recs).unwrap());
        }
    }
    while i < rows.len()
        invariant
            0 <= i <= rows@.len(),
            rv == rows@.map_values(|d: MessageDTO| d@),
            recs == rows_records(rv),
            msgs@.len() == i,
            acc.len() == i,
            forall|q: int| 0 <= q < acc.len() ==> #[trigger] msgs@[q]@ == acc[q],
            match spec_map_window(recs.skip(i as int)) {
                Ok(rest) => spec_map_window(recs) matches Ok(all) && all == acc + rest,
                Err(e) => spec_map_window(recs) == Err::<Seq<MessageView>, _>(e),
            },
        decreases rows@.len() - i,
    {
        let ghost wrem = recs.skip(i as int);
        proof {
            assert(wrem[0] == recs[i as int]);
            assert(rv[i as int] == rows@[i as int]@);
            assert(recs[i as int] == rv[i as int].record);
        }
        let msg = match MessageDTO::try_into(&rows[i]) {
            Ok(msg) => msg,
            Err(e) => {
                proof {
                    match spec_map_record(wrem[0]) {
                        Err(fe) => {
                            assert(spec_map_window(wrem) == Err::<
                                Seq<MessageView>,
                                (Field, validation::Error),
                            >(fe));
                        },
                        Ok(_) => {
                            assert(false);
                        },
                    }
                }
                return Err(e);
            },
        };
        proof {
            let mv = spec_map_record(wrem[0]).unwrap();
            let wrem2 = recs.skip(i as int + 1);
            assert(wrem.drop_first() =~= wrem2);
            match spec_map_window(wrem2) {
                Ok(rest2) => {
                    assert(spec_map_window(wrem) == Ok::<_, (Field, validation::Error)>(
                        seq![mv] + rest2,
                    ));
                    assert((acc + seq![mv]) + rest2 =~= acc + (seq![mv] + rest2));
                },
                Err(e2) => {
                    assert(spec_map_window(wrem) == Err::<Seq<MessageView>, _>(e2));
                },
            }
            acc = acc + seq![mv];
        }
        msgs.push(msg);
        i = i + 1;
    }
    proof {
        assert(recs.skip(rows@.len() as int) =~= Seq::<RecordView>::empty());
        assert(acc + Seq::<MessageView>::empty() =~= acc);
    }
    Ok((msgs, next_page_token))
}

} // verus!
