//! Validated domain value types and the message record.
//!
//! Each wrapper type can only be obtained through its validating
//! constructor, so holding a value of one of these types is proof that its
//! text satisfies the corresponding invariant.

use vstd::prelude::*;
use vstd::string::StrSliceExecFns;
use vstd::utf8::encode_utf8;
use crate::numeral;
use crate::text::ascii_to_string;
use crate::text::byte_len;
use crate::validation;

verus! {

/// Whether `s` is acceptable as a name: one to 255 bytes of UTF-8.
pub open spec fn valid_name(s: Seq<char>) -> bool {
    1 <= encode_utf8(s).len() <= 255
}

/// Whether `s` is acceptable as an email address: one to 255 bytes of
/// UTF-8, containing an `@`.
pub open spec fn valid_email(s: Seq<char>) -> bool {
    1 <= encode_utf8(s).len() <= 255 && s.contains('@')
}

/// Whether `s` is acceptable as message contents: one to 1024 bytes of
/// UTF-8.
pub open spec fn valid_contents(s: Seq<char>) -> bool {
    1 <= encode_utf8(s).len() <= 1024
}

/// A visitor's name.
#[derive(Debug)]
pub struct Name {
    text: String,
}

impl View for Name {
    type V = Seq<char>;

    closed spec fn view(&self) -> Seq<char> {
        self.text@
    }
}

impl Name {
    #[verifier::type_invariant]
    pub open spec fn wf(self) -> bool {
        valid_name(self@)
    }

    /// Validates a raw string as a name.
    pub fn try_from(text: String) -> (r: Result<Name, validation::Error>)
        ensures
            r matches Ok(n) ==> valid_name(text@) && n@ == text@,
            encode_utf8(text@).len() == 0 ==> r == Err::<Name, validation::Error>(
                validation::Error::TooShort,
            ),
            encode_utf8(text@).len() > 255 ==> r == Err::<Name, validation::Error>(
                validation::Error::TooLong,
            ),
            valid_name(text@) ==> r is Ok,
    {
        if byte_len(text.as_str()) < 1 {
            return Err(validation::Error::TooShort);
        }
        if byte_len(text.as_str()) > 255 {
            return Err(validation::Error::TooLong);
        }
        Ok(Name { text })
    }

    /// The validated text.
    pub fn as_str(&self) -> (r: &str)
        ensures
            r@ == self@,
    {
        self.text.as_str()
    }
}

impl Clone for Name {
    fn clone(&self) -> (r: Self)
        ensures
            r@ == self@,
    {
        proof {
            use_type_invariant(self);
        }
        Name { text: self.text.clone() }
    }
}

/// A visitor's email address.
#[derive(Debug)]
pub struct Email {
    text: String,
}

impl View for Email {
    type V = Seq<char>;

    closed spec fn view(&self) -> Seq<char> {
        self.text@
    }
}

impl Email {
    #[verifier::type_invariant]
    pub open spec fn wf(self) -> bool {
        valid_email(self@)
    }

    /// Validates a raw string as an email address.
    pub fn try_from(text: String) -> (r: Result<Email, validation::Error>)
        ensures
            r matches Ok(e) ==> valid_email(text@) && e@ == text@,
            encode_utf8(text@).len() == 0 ==> r == Err::<Email, validation::Error>(
                validation::Error::TooShort,
            ),
            encode_utf8(text@).len() > 255 ==> r == Err::<Email, validation::Error>(
                validation::Error::TooLong,
            ),
            1 <= encode_utf8(text@).len() <= 255 && !text@.contains('@') ==> r == Err::<
                Email,
                validation::Error,
            >(validation::Error::InvalidEmail),
            valid_email(text@) ==> r is Ok,
    {
        if byte_len(text.as_str()) < 1 {
            return Err(validation::Error::TooShort);
        }
        if byte_len(text.as_str()) > 255 {
            return Err(validation::Error::TooLong);
        }
        let s = text.as_str();
        let n = s.unicode_len();
        let mut i: usize = 0;
        let mut found = false;
        while i < n
            invariant
                n == s@.len(),
                s@ == text@,
                0 <= i <= n,
                found <==> exists|j: int| 0 <= j < i && s@[j] == '@',
            decreases n - i,
        {
            if s.get_char(i) == '@' {
                found = true;
            }
            i = i + 1;
        }
        if !found {
            proof {
                assert(!text@.contains('@'));
            }
            return Err(validation::Error::InvalidEmail);
        }
        proof {
            assert(text@.contains('@'));
        }
        Ok(Email { text })
    }

    /// The validated text.
    pub fn as_str(&self) -> (r: &str)
        ensures
            r@ == self@,
    {
        self.text.as_str()
    }
}

impl Clone for Email {
    fn clone(&self) -> (r: Self)
        ensures
            r@ == self@,
    {
        proof {
            use_type_invariant(self);
        }
        Email { text: self.text.clone() }
    }
}

/// The free-text contents of a message.
#[derive(Debug)]
pub struct Contents {
    text: String,
}

impl View for Contents {
    type V = Seq<char>;

    closed spec fn view(&self) -> Seq<char> {
        self.text@
    }
}

impl Contents {
    #[verifier::type_invariant]
    pub open spec fn wf(self) -> bool {
        valid_contents(self@)
    }

    /// Validates a raw string as message contents.
    pub fn try_from(text: String) -> (r: Result<Contents, validation::Error>)
        ensures
            r matches Ok(c) ==> valid_contents(text@) && c@ == text@,
            encode_utf8(text@).len() == 0 ==> r == Err::<Contents, validation::Error>(
                validation::Error::TooShort,
            ),
            encode_utf8(text@).len() > 1024 ==> r == Err::<Contents, validation::Error>(
                validation::Error::TooLong,
            ),
            valid_contents(text@) ==> r is Ok,
    {
        if byte_len(text.as_str()) < 1 {
            return Err(validation::Error::TooShort);
        }
        if byte_len(text.as_str()) > 1024 {
            return Err(validation::Error::TooLong);
        }
        Ok(Contents { text })
    }

    /// The validated text.
    pub fn as_str(&self) -> (r: &str)
        ensures
            r@ == self@,
    {
        self.text.as_str()
    }
}

impl Clone for Contents {
    fn clone(&self) -> (r: Self)
        ensures
            r@ == self@,
    {
        proof {
            use_type_invariant(self);
        }
        Contents { text: self.text.clone() }
    }
}

/// The digit part of a page-token string: an optional leading `+` sign is
/// tolerated, as the standard integer parser accepts one.
pub open spec fn token_digits(s: Seq<u8>) -> Seq<u8> {
    if s.len() >= 1 && s[0] == 0x2b {
        s.drop_first()
    } else {
        s
    }
}

/// Whether `s` (UTF-8 bytes of a raw token string) denotes a resume
/// position: at least one digit after the optional sign, and a value that
/// fits the platform's word size.
pub open spec fn valid_token_bytes(s: Seq<u8>) -> bool {
    &&& token_digits(s).len() >= 1
    &&& numeral::all_digits(token_digits(s))
    &&& numeral::digits_value(token_digits(s)) <= usize::MAX
}

/// An opaque pagination cursor: a backend-specific resume position,
/// exchanged with callers as a decimal string.  A token is only
/// meaningful to the backend that issued it (a record position for the
/// log-file backend, a row identity for the relational one); callers are
/// expected to round-trip it, not to interpret it.
#[derive(Debug, Clone, Copy)]
pub struct PageToken {
    offset: usize,
}

impl View for PageToken {
    type V = int;

    closed spec fn view(&self) -> int {
        self.offset as int
    }
}

impl PageToken {
    /// Wraps a resume position issued by a backend.
    pub fn new(offset: usize) -> (t: PageToken)
        ensures
            t@ == offset,
    {
        PageToken { offset }
    }

    /// The resume position this token denotes.
    pub fn offset(&self) -> (r: usize)
        ensures
            r == self@,
    {
        self.offset
    }

    /// Parses a caller-supplied token string.
    pub fn try_from(token: String) -> (r: Result<PageToken, validation::Error>)
        ensures
            r matches Ok(t) ==> valid_token_bytes(encode_utf8(token@)) && t@
                == numeral::digits_value(token_digits(encode_utf8(token@))),
            valid_token_bytes(encode_utf8(token@)) ==> r is Ok,
            !valid_token_bytes(encode_utf8(token@)) ==> r == Err::<PageToken, validation::Error>(
                validation::Error::InvalidPageToken,
            ),
    {
        let bytes = token.as_str().as_bytes();
        let ghost ds = token_digits(bytes@);
        let start: usize = if bytes.len() >= 1 && bytes[0] == 0x2b {
            1
        } else {
            0
        };
        proof {
            if start == 1 {
                assert(ds =~= bytes@.subrange(1, bytes@.len() as int));
            } else {
                assert(ds =~= bytes@.subrange(0, bytes@.len() as int));
            }
        }
        if bytes.len() == start {
            return Err(validation::Error::InvalidPageToken);
        }
        let mut acc: usize = 0;
        let mut i: usize = start;
        while i < bytes.len()
            invariant
                start <= i <= bytes@.len(),
                bytes@ == encode_utf8(token@),
                ds == token_digits(bytes@),
                ds == bytes@.subrange(start as int, bytes@.len() as int),
                numeral::all_digits(ds.take(i - start)),
                acc as nat == numeral::digits_value(ds.take(i - start)),
            decreases bytes@.len() - i,
        {
            let b = bytes[i];
            if b < 0x30 || b > 0x39 {
                proof {
                    assert(ds[i - start] == bytes@[i as int]);
                    assert(!numeral::is_digit(ds[i - start]));
                    assert(!numeral::all_digits(ds));
                }
                return Err(validation::Error::InvalidPageToken);
            }
            let d: usize = (b - 0x30) as usize;
            proof {
                numeral::lemma_digits_value_snoc(ds, i - start);
                assert(ds[i - start] == bytes@[i as int]);
            }
            if acc > usize::MAX / 10 || (acc == usize::MAX / 10 && d > usize::MAX % 10) {
                proof {
                    vstd::arithmetic::div_mod::lemma_fundamental_div_mod(usize::MAX as int, 10);
                    assert(acc as nat * 10 + d as nat > usize::MAX);
                    assert(numeral::digits_value(ds.take(i - start + 1)) > usize::MAX);
                    numeral::lemma_digits_value_mono(ds, i - start + 1, ds.len() as int);
                    assert(ds.take(ds.len() as int) =~= ds);
                }
                return Err(validation::Error::InvalidPageToken);
            }
            acc = acc * 10 + d;
            i = i + 1;
        }
        proof {
            assert(ds.take(ds.len() as int) =~= ds);
        }
        Ok(PageToken { offset: acc })
    }

    /// Renders the token as the decimal string `try_from` inverts.
    pub fn to_string(&self) -> (r: String)
        ensures
            encode_utf8(r@) == numeral::dec_digits(self@ as nat),
    {
        let digits = numeral::render_usize(self.offset);
        proof {
            numeral::lemma_dec_digits_canonical(self.offset as nat);
            assert(forall|i: int|
                0 <= i < digits@.len() ==> numeral::is_digit(#[trigger] digits@[i]));
            assert(forall|i: int| 0 <= i < digits@.len() ==> #[trigger] digits@[i] < 0x80);
        }
        ascii_to_string(digits)
    }
}

impl Clone for Message {
    fn clone(&self) -> (r: Self)
        ensures
            r@ == self@,
    {
        proof {
            use_type_invariant(self);
        }
        Message {
            timestamp: self.timestamp,
            name: self.name.clone(),
            email: self.email.clone(),
            contents: self.contents.clone(),
        }
    }
}

/// Composing `to_string` with `try_from` yields the same token back.
pub proof fn lemma_token_round_trip(offset: usize, s: Seq<char>)
    requires
        encode_utf8(s) == numeral::dec_digits(offset as nat),
    ensures
        valid_token_bytes(encode_utf8(s)),
        numeral::digits_value(token_digits(encode_utf8(s))) == offset,
{
    numeral::lemma_dec_digits_canonical(offset as nat);
    numeral::lemma_dec_digits_value(offset as nat);
    assert(token_digits(encode_utf8(s)) == encode_utf8(s));
}

/// The mathematical content of a message record.
pub struct MessageView {
    pub timestamp: int,
    pub name: Seq<char>,
    pub email: Seq<char>,
    pub contents: Seq<char>,
}

/// Whether a message view satisfies every field invariant and its
/// timestamp fits the stored representation.
pub open spec fn wf_message(v: MessageView) -> bool {
    &&& valid_name(v.name)
    &&& valid_email(v.email)
    &&& valid_contents(v.contents)
    &&& 0 <= v.timestamp <= u128::MAX
}

/// A validated message: the creation instant (nanoseconds since the Unix
/// epoch) together with validated name, email address and contents.
#[derive(Debug)]
pub struct Message {
    timestamp: u128,
    name: Name,
    email: Email,
    contents: Contents,
}

impl View for Message {
    type V = MessageView;

    closed spec fn view(&self) -> MessageView {
        MessageView {
            timestamp: self.timestamp as int,
            name: self.name@,
            email: self.email@,
            contents: self.contents@,
        }
    }
}

impl Message {
    #[verifier::type_invariant]
    pub open spec fn wf(self) -> bool {
        wf_message(self@)
    }

    /// Assembles a message from already-validated parts.
    pub fn new(timestamp: u128, name: Name, email: Email, contents: Contents) -> (m: Message)
        ensures
            m@ == (MessageView {
                timestamp: timestamp as int,
                name: name@,
                email: email@,
                contents: contents@,
            }),
    {
        proof {
            use_type_invariant(&name);
            use_type_invariant(&email);
            use_type_invariant(&contents);
        }
        Message { timestamp, name, email, contents }
    }

    /// The creation instant, in nanoseconds since the Unix epoch.
    pub fn timestamp(&self) -> (r: u128)
        ensures
            r as int == self@.timestamp,
    {
        self.timestamp
    }

    /// The sender's name.
    pub fn name(&self) -> (r: &Name)
        ensures
            r@ == self@.name,
    {
        &self.name
    }

    /// The sender's email address.
    pub fn email(&self) -> (r: &Email)
        ensures
            r@ == self@.email,
    {
        &self.email
    }

    /// The message contents.
    pub fn contents(&self) -> (r: &Contents)
        ensures
            r@ == self@.contents,
    {
        &self.contents
    }
}

} // verus!
