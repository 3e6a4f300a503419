//! The on-disk record format of the log-file backend.
//!
//! Each message is stored as one JSON object on its own line:
//! `{"timestamp":N,"name":"...","email":"...","contents":"..."}` with the
//! timestamp in decimal and the three text fields escaped as JSON strings.
//! The encoder writes a canonical form (shortest escapes, lowercase hex,
//! no extra whitespace, fields in a fixed order), and the parser accepts
//! exactly the canonical encodings.  Together they give a round trip in
//! both directions: decoding inverts encoding, and any accepted input is
//! the encoding of the record it decodes to, so corrupted or hand-edited
//! storage is rejected rather than guessed at.

use vstd::prelude::*;
use vstd::utf8::decode_utf8;
use vstd::utf8::decode_utf8_encode_utf8;
use vstd::utf8::encode_utf8;
use vstd::utf8::encode_utf8_decode_utf8;
use vstd::utf8::encode_utf8_valid_utf8;
use vstd::utf8::valid_utf8;
use crate::model::Message;
use crate::model::MessageView;
use crate::numeral;
use crate::text::bytes_to_string;

verus! {

/// Lowercase hexadecimal digit byte for `d` (below sixteen).
pub open spec fn hex_digit_byte(d: nat) -> u8 {
    if d < 10 {
        (0x30 + d) as u8
    } else {
        (0x61 + (d - 10)) as u8
    }
}

/// Whether `b` is a lowercase hexadecimal digit byte.
pub open spec fn is_lower_hex(b: u8) -> bool {
    0x30 <= b <= 0x39 || 0x61 <= b <= 0x66
}

/// The value of a lowercase hexadecimal digit byte.
pub open spec fn hex_val(b: u8) -> nat {
    if 0x30 <= b <= 0x39 {
        (b - 0x30) as nat
    } else {
        (b - 0x61 + 10) as nat
    }
}

proof fn lemma_hex_round(d: nat)
    requires
        d < 16,
    ensures
        is_lower_hex(hex_digit_byte(d)),
        hex_val(hex_digit_byte(d)) == d,
{
}

proof fn lemma_hex_byte_round(b: u8)
    requires
        is_lower_hex(b),
    ensures
        hex_val(b) < 16,
        hex_digit_byte(hex_val(b)) == b,
{
}

/// Control bytes with a dedicated short escape.
pub open spec fn is_short_escaped(b: u8) -> bool {
    b == 0x08 || b == 0x09 || b == 0x0a || b == 0x0c || b == 0x0d
}

/// The canonical escape of one byte of field text.
pub open spec fn esc_byte(b: u8) -> Seq<u8> {
    if b == 0x22 {
        seq![0x5c, 0x22]
    } else if b == 0x5c {
        seq![0x5c, 0x5c]
    } else if b == 0x08 {
        seq![0x5c, 0x62]
    } else if b == 0x09 {
        seq![0x5c, 0x74]
    } else if b == 0x0a {
        seq![0x5c, 0x6e]
    } else if b == 0x0c {
        seq![0x5c, 0x66]
    } else if b == 0x0d {
        seq![0x5c, 0x72]
    } else if b < 0x20 {
        seq![0x5c, 0x75, 0x30, 0x30, hex_digit_byte((b / 16) as nat), hex_digit_byte((b % 16) as nat)]
    } else {
        seq![b]
    }
}

/// The canonical escape of a byte string.
pub open spec fn esc(s: Seq<u8>) -> Seq<u8>
    decreases s.len(),
{
    if s.len() == 0 {
        Seq::empty()
    } else {
        esc_byte(s[0]) + esc(s.drop_first())
    }
}

/// Escaping a single byte is just its byte escape.
pub proof fn lemma_esc_singleton(b: u8)
    ensures
        esc(seq![b]) == esc_byte(b),
{
    assert(seq![b].drop_first() =~= Seq::<u8>::empty());
    assert(esc(seq![b]) == esc_byte(b) + esc(Seq::<u8>::empty()));
    assert(esc_byte(b) + Seq::<u8>::empty() =~= esc_byte(b));
}

/// Escaping distributes over concatenation.
pub proof fn lemma_esc_concat(a: Seq<u8>, b: Seq<u8>)
    ensures
        esc(a + b) == esc(a) + esc(b),
    decreases a.len(),
{
    if a.len() == 0 {
        assert(a + b =~= b);
        assert(esc(a) + esc(b) =~= esc(b));
    } else {
        assert((a + b).drop_first() =~= a.drop_first() + b);
        lemma_esc_concat(a.drop_first(), b);
        assert((a + b)[0] == a[0]);
        assert(esc_byte(a[0]) + (esc(a.drop_first()) + esc(b)) =~= (esc_byte(a[0]) + esc(
            a.drop_first(),
        )) + esc(b));
    }
}

/// Escaped text never contains an unescaped newline, quote or backslash
/// except as part of an escape pair, and in particular no newline byte.
pub proof fn lemma_esc_no_newline(s: Seq<u8>)
    ensures
        forall|i: int| 0 <= i < esc(s).len() ==> #[trigger] esc(s)[i] != 0x0a,
    decreases s.len(),
{
    if s.len() > 0 {
        lemma_esc_no_newline(s.drop_first());
        assert forall|i: int| 0 <= i < esc(s).len() implies #[trigger] esc(s)[i] != 0x0a by {
            if i < esc_byte(s[0]).len() {
                assert(esc(s)[i] == esc_byte(s[0])[i]);
            } else {
                assert(esc(s)[i] == esc(s.drop_first())[i - esc_byte(s[0]).len()]);
            }
        }
    }
}

/// Undoes one escape sequence at the start of `s` (which begins with a
/// backslash), accepting only the canonical escapes the encoder emits.
pub open spec fn spec_unescape_one(s: Seq<u8>) -> Option<(u8, int)> {
    if s.len() < 2 {
        None
    } else if s[1] == 0x22 {
        Some((0x22u8, 2))
    } else if s[1] == 0x5c {
        Some((0x5cu8, 2))
    } else if s[1] == 0x62 {
        Some((0x08u8, 2))
    } else if s[1] == 0x74 {
        Some((0x09u8, 2))
    } else if s[1] == 0x6e {
        Some((0x0au8, 2))
    } else if s[1] == 0x66 {
        Some((0x0cu8, 2))
    } else if s[1] == 0x72 {
        Some((0x0du8, 2))
    } else if s[1] == 0x75 {
        if s.len() < 6 {
            None
        } else if s[2] != 0x30 || s[3] != 0x30 {
            None
        } else if !is_lower_hex(s[4]) || !is_lower_hex(s[5]) {
            None
        } else {
            let v = hex_val(s[4]) * 16 + hex_val(s[5]);
            if v < 0x20 && !is_short_escaped(v as u8) {
                Some((v as u8, 6))
            } else {
                None
            }
        }
    } else {
        None
    }
}

/// Parses the body of a JSON string up to (but not including) the closing
/// quote, undoing the canonical escapes.  Returns the unescaped bytes and
/// the number of input bytes consumed.
pub open spec fn spec_parse_string_body(s: Seq<u8>) -> Option<(Seq<u8>, int)>
    decreases s.len(),
{
    if s.len() == 0 {
        None
    } else if s[0] == 0x22 {
        Some((Seq::empty(), 0))
    } else if s[0] == 0x5c {
        match spec_unescape_one(s) {
            None => None,
            Some((b, k)) => {
                if 1 <= k <= s.len() {
                    match spec_parse_string_body(s.skip(k)) {
                        None => None,
                        Some((v, n)) => Some((seq![b] + v, k + n)),
                    }
                } else {
                    None
                }
            },
        }
    } else if s[0] < 0x20 {
        None
    } else {
        match spec_parse_string_body(s.drop_first()) {
            None => None,
            Some((v, n)) => Some((seq![s[0]] + v, 1 + n)),
        }
    }
}

/// Parsing inverts escaping: the body parser applied to escaped text
/// followed by a closing quote recovers the text exactly.
pub proof fn lemma_parse_esc(b: Seq<u8>, tail: Seq<u8>)
    requires
        tail.len() >= 1,
        tail[0] == 0x22,
    ensures
        spec_parse_string_body(esc(b) + tail) == Some((b, esc(b).len() as int)),
    decreases b.len(),
{
    let s = esc(b) + tail;
    if b.len() == 0 {
        assert(s =~= tail);
        assert(spec_parse_string_body(s) == Some((Seq::<u8>::empty(), 0int)));
        assert(b =~= Seq::<u8>::empty());
    } else {
        let b0 = b[0];
        let rest = b.drop_first();
        lemma_parse_esc(rest, tail);
        let e = esc_byte(b0);
        assert(esc(b) == e + esc(rest));
        assert(s =~= e + (esc(rest) + tail));
        let srest = esc(rest) + tail;
        let k = e.len() as int;
        assert(s.skip(k) =~= srest);
        assert(s[0] == e[0]);
        if b0 == 0x22 || b0 == 0x5c || b0 == 0x08 || b0 == 0x09 || b0 == 0x0a || b0 == 0x0c || b0
            == 0x0d {
            assert(s[0] == 0x5c && s[1] == e[1]);
            assert(spec_unescape_one(s) == Some((b0, 2int)));
        } else if b0 < 0x20 {
            assert(s[0] == 0x5c);
            assert(s[1] == 0x75 && s[2] == 0x30 && s[3] == 0x30);
            assert(s[4] == hex_digit_byte((b0 / 16) as nat));
            assert(s[5] == hex_digit_byte((b0 % 16) as nat));
            lemma_hex_round((b0 / 16) as nat);
            lemma_hex_round((b0 % 16) as nat);
            assert(hex_val(s[4]) * 16 + hex_val(s[5]) == b0);
            assert(!is_short_escaped(b0));
            assert(spec_unescape_one(s) == Some((b0, 6int)));
        } else {
            assert(e.len() == 1);
            assert(s[0] == b0 && b0 != 0x22 && b0 != 0x5c && b0 >= 0x20);
            assert(s.drop_first() =~= s.skip(1));
        }
        assert(seq![b0] + rest =~= b);
    }
}

/// Soundness of the body parser: whatever it accepts is the canonical
/// escape of its result, followed by the closing quote it stopped at.
pub proof fn lemma_parse_string_body_sound(s: Seq<u8>)
    ensures
        match spec_parse_string_body(s) {
            Some((v, n)) => {
                &&& 0 <= n < s.len()
                &&& s[n] == 0x22
                &&& s.take(n) == esc(v)
            },
            None => true,
        },
    decreases s.len(),
{
    if s.len() == 0 {
    } else if s[0] == 0x22 {
        assert(s.take(0) =~= esc(Seq::<u8>::empty()));
    } else if s[0] == 0x5c {
        match spec_unescape_one(s) {
            None => {},
            Some((b, k)) => {
                if 1 <= k <= s.len() {
                    lemma_parse_string_body_sound(s.skip(k));
                    match spec_parse_string_body(s.skip(k)) {
                        None => {},
                        Some((v, n)) => {
                            assert(s.skip(k)[n] == s[k + n]);
                            assert(esc_byte(b) =~= s.take(k)) by {
                                if k == 2 {
                                    assert(esc_byte(b).len() == 2);
                                    assert(esc_byte(b)[0] == 0x5c && esc_byte(b)[1] == s[1]);
                                } else {
                                    assert(k == 6);
                                    let v16 = hex_val(s[4]) * 16 + hex_val(s[5]);
                                    assert(b == v16 as u8);
                                    assert(b < 0x20 && !is_short_escaped(b));
                                    lemma_hex_byte_round(s[4]);
                                    lemma_hex_byte_round(s[5]);
                                    assert(hex_val(s[5]) < 16);
                                    assert(b as nat == hex_val(s[4]) * 16 + hex_val(s[5]));
                                    assert(b / 16 == hex_val(s[4]) && b % 16 == hex_val(s[5]))
                                        by (nonlinear_arith)
                                        requires
                                            b as nat == hex_val(s[4]) * 16 + hex_val(s[5]),
                                            hex_val(s[5]) < 16,
                                    ;
                                    assert(esc_byte(b)[4] == hex_digit_byte((b / 16) as nat));
                                    assert(esc_byte(b)[4] == s[4]);
                                    assert(esc_byte(b)[5] == s[5]);
                                }
                            }
                            lemma_esc_concat(seq![b], v);
                            lemma_esc_singleton(b);
                            assert(esc(seq![b] + v) == esc_byte(b) + esc(v));
                            assert(s.take(k + n) =~= s.take(k) + s.skip(k).take(n));
                        },
                    }
                }
            },
        }
    } else if s[0] < 0x20 {
    } else {
        lemma_parse_string_body_sound(s.drop_first());
        match spec_parse_string_body(s.drop_first()) {
            None => {},
            Some((v, n)) => {
                assert(s.drop_first() =~= s.skip(1));
                assert(s.skip(1)[n] == s[1 + n]);
                assert(esc_byte(s[0]) =~= seq![s[0]]);
                lemma_esc_concat(seq![s[0]], v);
                lemma_esc_singleton(s[0]);
                assert(s.take(1 + n) =~= s.take(1) + s.skip(1).take(n));
                assert(s.take(1) =~= seq![s[0]]);
            },
        }
    }
}

/// Escapes field text for storage.
pub fn escape_bytes(s: &[u8]) -> (r: Vec<u8>)
    ensures
        r@ == esc(s@),
{
    let mut out: Vec<u8> = Vec::new();
    let mut i: usize = 0;
    while i < s.len()
        invariant
            0 <= i <= s@.len(),
            out@ == esc(s@.take(i as int)),
        decreases s@.len() - i,
    {
        let b = s[i];
        proof {
            lemma_esc_concat(s@.take(i as int), seq![b]);
            lemma_esc_singleton(b);
            assert(s@.take(i as int + 1) =~= s@.take(i as int) + seq![b]);
        }
        if b == 0x22 {
            out.push(0x5c);
            out.push(0x22);
        } else if b == 0x5c {
            out.push(0x5c);
            out.push(0x5c);
        } else if b == 0x08 {
            out.push(0x5c);
            out.push(0x62);
        } else if b == 0x09 {
            out.push(0x5c);
            out.push(0x74);
        } else if b == 0x0a {
            out.push(0x5c);
            out.push(0x6e);
        } else if b == 0x0c {
            out.push(0x5c);
            out.push(0x66);
        } else if b == 0x0d {
            out.push(0x5c);
            out.push(0x72);
        } else if b < 0x20 {
            out.push(0x5c);
            out.push(0x75);
            out.push(0x30);
            out.push(0x30);
            let hi = b / 16;
            let lo = b % 16;
            let h1: u8 = if hi < 10 {
                0x30 + hi
            } else {
                0x61 + (hi - 10)
            };
            let h2: u8 = if lo < 10 {
                0x30 + lo
            } else {
                0x61 + (lo - 10)
            };
            out.push(h1);
            out.push(h2);
        } else {
            out.push(b);
        }
        proof {
            assert(out@ =~= esc(s@.take(i as int + 1)));
        }
        i = i + 1;
    }
    proof {
        assert(s@.take(s@.len() as int) =~= s@);
    }
    out
}

/// Parses a JSON string body starting at `start`, returning the unescaped
/// bytes and the position of the closing quote.
pub fn parse_string_body(s: &[u8], start: usize) -> (r: Option<(Vec<u8>, usize)>)
    requires
        start <= s@.len(),
    ensures
        match spec_parse_string_body(s@.skip(start as int)) {
            Some((v, n)) => r matches Some(p) && p.0@ == v && p.1 == start + n && p.1
                <= s@.len(),
            None => r is None,
        },
{
    let mut acc: Vec<u8> = Vec::new();
    let mut pos: usize = start;
    loop
        invariant
            start <= pos <= s@.len(),
            match spec_parse_string_body(s@.skip(pos as int)) {
                Some((v, n)) => match spec_parse_string_body(s@.skip(start as int)) {
                    Some((w, m)) => w == acc@ + v && m == pos - start + n,
                    None => false,
                },
                None => spec_parse_string_body(s@.skip(start as int)) is None,
            },
        decreases s@.len() - pos,
    {
        let ghost rem = s@.skip(pos as int);
        if pos == s.len() {
            proof {
                assert(rem =~= Seq::<u8>::empty());
            }
            return None;
        }
        let b = s[pos];
        proof {
            assert(rem.len() > 0);
            assert(rem[0] == b);
        }
        if b == 0x22 {
            return Some((acc, pos));
        } else if b == 0x5c {
            if pos + 1 == s.len() {
                proof {
                    assert(rem.len() < 2);
                }
                return None;
            }
            let e = s[pos + 1];
            proof {
                assert(rem[1] == e);
            }
            let unescaped: u8;
            let consumed: usize;
            if e == 0x22 {
                unescaped = 0x22;
                consumed = 2;
            } else if e == 0x5c {
                unescaped = 0x5c;
                consumed = 2;
            } else if e == 0x62 {
                unescaped = 0x08;
                consumed = 2;
            } else if e == 0x74 {
                unescaped = 0x09;
                consumed = 2;
            } else if e == 0x6e {
                unescaped = 0x0a;
                consumed = 2;
            } else if e == 0x66 {
                unescaped = 0x0c;
                consumed = 2;
            } else if e == 0x72 {
                unescaped = 0x0d;
                consumed = 2;
            } else if e == 0x75 {
                if s.len() - pos < 6 {
                    proof {
                        assert(rem.len() < 6);
                    }
                    return None;
                }
                if s[pos + 2] != 0x30 || s[pos + 3] != 0x30 {
                    proof {
                        assert(rem[2] == s@[pos as int + 2] && rem[3] == s@[pos as int + 3]);
                    }
                    return None;
                }
                let h1 = s[pos + 4];
                let h2 = s[pos + 5];
                proof {
                    assert(rem[2] == s@[pos as int + 2] && rem[3] == s@[pos as int + 3]);
                    assert(rem[4] == h1 && rem[5] == h2);
                }
                let v1: u8;
                let v2: u8;
                if 0x30 <= h1 && h1 <= 0x39 {
                    v1 = h1 - 0x30;
                } else if 0x61 <= h1 && h1 <= 0x66 {
                    v1 = h1 - 0x61 + 10;
                } else {
                    return None;
                }
                if 0x30 <= h2 && h2 <= 0x39 {
                    v2 = h2 - 0x30;
                } else if 0x61 <= h2 && h2 <= 0x66 {
                    v2 = h2 - 0x61 + 10;
                } else {
                    return None;
                }
                let v = v1 * 16 + v2;
                if !(v < 0x20 && !(v == 0x08 || v == 0x09 || v == 0x0a || v == 0x0c || v
                    == 0x0d)) {
                    return None;
                }
                unescaped = v;
                consumed = 6;
            } else {
                return None;
            }
            proof {
                assert(spec_unescape_one(rem) == Some((unescaped, consumed as int)));
                let rem2 = s@.skip(pos as int + consumed as int);
                assert(rem.skip(consumed as int) =~= rem2);
                match spec_parse_string_body(rem2) {
                    Some((v2, n2)) => {
                        assert(spec_parse_string_body(rem) == Some(
                            (seq![unescaped] + v2, consumed + n2),
                        ));
                        assert((acc@ + seq![unescaped]) + v2 =~= acc@ + (seq![unescaped] + v2));
                    },
                    None => {
                        assert(spec_parse_string_body(rem) is None);
                    },
                }
            }
            acc.push(unescaped);
            pos = pos + consumed;
        } else if b < 0x20 {
            return None;
        } else {
            proof {
                let rem2 = s@.skip(pos as int + 1);
                assert(rem.drop_first() =~= rem2);
                match spec_parse_string_body(rem2) {
                    Some((v2, n2)) => {
                        assert(spec_parse_string_body(rem) == Some((seq![b] + v2, 1 + n2)));
                        assert((acc@ + seq![b]) + v2 =~= acc@ + (seq![b] + v2));
                    },
                    None => {
                        assert(spec_parse_string_body(rem) is None);
                    },
                }
            }
            acc.push(b);
            pos = pos + 1;
        }
    }
}

/// The number of leading decimal-digit bytes of `s`.
pub open spec fn digit_prefix_len(s: Seq<u8>) -> int
    decreases s.len(),
{
    if s.len() == 0 || !numeral::is_digit(s[0]) {
        0
    } else {
        1 + digit_prefix_len(s.drop_first())
    }
}

/// Basic bounds of the digit prefix: it is a digits-only prefix and it is
/// maximal.
pub proof fn lemma_digit_prefix_basic(s: Seq<u8>)
    ensures
        0 <= digit_prefix_len(s) <= s.len(),
        numeral::all_digits(s.take(digit_prefix_len(s))),
        digit_prefix_len(s) < s.len() ==> !numeral::is_digit(s[digit_prefix_len(s)]),
    decreases s.len(),
{
    if s.len() != 0 && numeral::is_digit(s[0]) {
        lemma_digit_prefix_basic(s.drop_first());
        let k = digit_prefix_len(s);
        assert(s.take(k).drop_first() =~= s.drop_first().take(k - 1));
        assert forall|i: int| 0 <= i < k implies numeral::is_digit(#[trigger] s.take(k)[i]) by {
            if i > 0 {
                assert(s.take(k)[i] == s.drop_first().take(k - 1)[i - 1]);
            }
        }
    }
}

/// A digits-only prefix of length `k` followed by a non-digit (or the end
/// of input) is exactly the digit prefix.
pub proof fn lemma_digit_prefix_exact(s: Seq<u8>, k: int)
    requires
        0 <= k <= s.len(),
        numeral::all_digits(s.take(k)),
        k == s.len() || !numeral::is_digit(s[k]),
    ensures
        digit_prefix_len(s) == k,
    decreases k,
{
    if k == 0 {
        if s.len() > 0 {
            assert(!numeral::is_digit(s[0]));
        }
    } else {
        assert(numeral::is_digit(s.take(k)[0]));
        assert(s.take(k)[0] == s[0]);
        let t = s.drop_first();
        assert(t.take(k - 1) =~= s.take(k).drop_first());
        assert forall|i: int| 0 <= i < k - 1 implies numeral::is_digit(#[trigger] t.take(k - 1)[i])
            by {
            assert(t.take(k - 1)[i] == s.take(k)[i + 1]);
        }
        if k < s.len() {
            assert(t[k - 1] == s[k]);
        }
        lemma_digit_prefix_exact(t, k - 1);
    }
}

/// The digit prefix is at least `k` when the first `k` bytes are digits.
pub proof fn lemma_digit_prefix_min(s: Seq<u8>, k: int)
    requires
        0 <= k <= s.len(),
        forall|i: int| 0 <= i < k ==> numeral::is_digit(#[trigger] s[i]),
    ensures
        digit_prefix_len(s) >= k,
    decreases k,
{
    if k > 0 {
        assert(numeral::is_digit(s[0]));
        let t = s.drop_first();
        assert forall|i: int| 0 <= i < k - 1 implies numeral::is_digit(#[trigger] t[i]) by {
            assert(t[i] == s[i + 1]);
        }
        lemma_digit_prefix_min(t, k - 1);
        assert(digit_prefix_len(s) == 1 + digit_prefix_len(t));
    } else {
        lemma_digit_prefix_basic(s);
    }
}

/// Parses a decimal number at the start of `s`: a canonical numeral that
/// fits in the stored timestamp width, ending at the first non-digit.
pub open spec fn spec_parse_number(s: Seq<u8>) -> Option<(nat, int)> {
    let k = digit_prefix_len(s);
    if k == 0 {
        None
    } else if k > 1 && s[0] == 0x30 {
        None
    } else if numeral::digits_value(s.take(k)) > u128::MAX {
        None
    } else {
        Some((numeral::digits_value(s.take(k)), k))
    }
}

/// Parsing inverts rendering: a canonical numeral followed by a non-digit
/// parses to its value.
pub proof fn lemma_parse_number_round(n: nat, tail: Seq<u8>)
    requires
        n <= u128::MAX,
        tail.len() >= 1,
        !numeral::is_digit(tail[0]),
    ensures
        spec_parse_number(numeral::dec_digits(n) + tail) == Some(
            (n, numeral::dec_digits(n).len() as int),
        ),
{
    let ds = numeral::dec_digits(n);
    let s = ds + tail;
    numeral::lemma_dec_digits_canonical(n);
    numeral::lemma_dec_digits_value(n);
    assert(s.take(ds.len() as int) =~= ds);
    assert(s[ds.len() as int] == tail[0]);
    lemma_digit_prefix_exact(s, ds.len() as int);
    assert(s[0] == ds[0]);
}

/// Soundness of the number parser: whatever it accepts is the canonical
/// numeral of its value.
pub proof fn lemma_parse_number_sound(s: Seq<u8>)
    ensures
        match spec_parse_number(s) {
            Some((n, k)) => {
                &&& 0 < k <= s.len()
                &&& n <= u128::MAX
                &&& s.take(k) == numeral::dec_digits(n)
                &&& (k == s.len() || !numeral::is_digit(s[k]))
            },
            None => true,
        },
{
    lemma_digit_prefix_basic(s);
    match spec_parse_number(s) {
        Some((n, k)) => {
            assert(s.take(k)[0] == s[0]);
            numeral::lemma_canonical_digits_of_value(s.take(k));
        },
        None => {},
    }
}

/// The bytes `{"timestamp":` opening every record.
#[verifier::opaque]
pub open spec fn lit_header() -> Seq<u8> {
    seq![0x7b, 0x22, 0x74, 0x69, 0x6d, 0x65, 0x73, 0x74, 0x61, 0x6d, 0x70, 0x22, 0x3a]
}

/// The bytes `,"name":"` between the timestamp and the name.
#[verifier::opaque]
pub open spec fn lit_name_sep() -> Seq<u8> {
    seq![0x2c, 0x22, 0x6e, 0x61, 0x6d, 0x65, 0x22, 0x3a, 0x22]
}

/// The bytes `","email":"` between the name and the email.
#[verifier::opaque]
pub open spec fn lit_email_sep() -> Seq<u8> {
    seq![0x22, 0x2c, 0x22, 0x65, 0x6d, 0x61, 0x69, 0x6c, 0x22, 0x3a, 0x22]
}

/// The bytes `","contents":"` between the email and the contents.
#[verifier::opaque]
pub open spec fn lit_contents_sep() -> Seq<u8> {
    seq![0x22, 0x2c, 0x22, 0x63, 0x6f, 0x6e, 0x74, 0x65, 0x6e, 0x74, 0x73, 0x22, 0x3a, 0x22]
}

/// The bytes `"}` closing every record.
#[verifier::opaque]
pub open spec fn lit_tail() -> Seq<u8> {
    seq![0x22, 0x7d]
}


/// Lengths and first bytes of the record literals.
proof fn lemma_lit_facts()
    ensures
        lit_header().len() == 13,
        lit_name_sep().len() == 9,
        lit_name_sep()[0] == 0x2c,
        lit_email_sep().len() == 11,
        lit_email_sep()[0] == 0x22,
        lit_contents_sep().len() == 14,
        lit_contents_sep()[0] == 0x22,
        lit_tail().len() == 2,
        lit_tail()[0] == 0x22,
{
    reveal(lit_header);
    reveal(lit_name_sep);
    reveal(lit_email_sep);
    reveal(lit_contents_sep);
    reveal(lit_tail);
}

/// Whether `lit` occurs in `s` at position `pos`.
pub open spec fn has_lit_at(s: Seq<u8>, pos: int, lit: Seq<u8>) -> bool {
    &&& 0 <= pos
    &&& pos + lit.len() <= s.len()
    &&& s.subrange(pos, pos + lit.len()) == lit
}

/// One stored record: the timestamp value and the three text fields as
/// they stand in storage, before re-validation.
pub struct RecordView {
    pub timestamp: int,
    pub name: Seq<char>,
    pub email: Seq<char>,
    pub contents: Seq<char>,
}

/// Whether a record's timestamp fits the stored width.
pub open spec fn wf_record(v: RecordView) -> bool {
    0 <= v.timestamp <= u128::MAX
}

/// The canonical line (without the trailing newline) storing record `v`.
pub open spec fn spec_encode_record(v: RecordView) -> Seq<u8> {
    lit_header() + (numeral::dec_digits(v.timestamp as nat) + (lit_name_sep() + (esc(
        encode_utf8(v.name),
    ) + (lit_email_sep() + (esc(encode_utf8(v.email)) + (lit_contents_sep() + (esc(
        encode_utf8(v.contents),
    ) + lit_tail())))))))
}

/// Splitting a concatenation at the seam recovers the two parts.
pub proof fn lemma_split_concat(a: Seq<u8>, b: Seq<u8>)
    ensures
        (a + b).skip(a.len() as int) == b,
        (a + b).subrange(0, a.len() as int) == a,
{
    assert((a + b).skip(a.len() as int) =~= b);
    assert((a + b).subrange(0, a.len() as int) =~= a);
}

/// Composing two skips is one skip.
pub proof fn lemma_skip_skip(s: Seq<u8>, i: int, j: int)
    requires
        0 <= i,
        0 <= j,
        i + j <= s.len(),
    ensures
        s.skip(i).skip(j) == s.skip(i + j),
{
    assert(s.skip(i).skip(j) =~= s.skip(i + j));
}

/// A subrange of `s` is the front of the corresponding skip.
pub proof fn lemma_subrange_skip(s: Seq<u8>, p: int, l: int)
    requires
        0 <= p,
        0 <= l,
        p + l <= s.len(),
    ensures
        s.subrange(p, p + l) == s.skip(p).subrange(0, l),
{
    assert(s.subrange(p, p + l) =~= s.skip(p).subrange(0, l));
}

/// A skip splits into its front and the rest.
pub proof fn lemma_skip_split(s: Seq<u8>, i: int, l: int)
    requires
        0 <= i,
        0 <= l,
        i + l <= s.len(),
    ensures
        s.skip(i) == s.skip(i).subrange(0, l) + s.skip(i + l),
{
    assert(s.skip(i) =~= s.skip(i).subrange(0, l) + s.skip(i + l));
}

/// Parses one stored line into a record; accepts exactly the canonical
/// encodings of records.  The parse proceeds left to right through the
/// helper functions below, each consuming one piece of the line.
pub open spec fn spec_parse_record(s: Seq<u8>) -> Option<RecordView> {
    if !has_lit_at(s, 0, lit_header()) {
        None
    } else {
        spec_parse_from_timestamp(s, 13)
    }
}

/// Continues a record parse at the timestamp numeral.
pub open spec fn spec_parse_from_timestamp(s: Seq<u8>, p: int) -> Option<RecordView> {
    match spec_parse_number(s.skip(p)) {
        None => None,
        Some((t, k)) => spec_parse_from_name_sep(s, p + k, t),
    }
}

/// Continues a record parse at the separator before the name.
pub open spec fn spec_parse_from_name_sep(s: Seq<u8>, p: int, t: nat) -> Option<RecordView> {
    if !has_lit_at(s, p, lit_name_sep()) {
        None
    } else {
        spec_parse_from_name(s, p + 9, t)
    }
}

/// Continues a record parse at the name field.
pub open spec fn spec_parse_from_name(s: Seq<u8>, p: int, t: nat) -> Option<RecordView> {
    match spec_parse_string_body(s.skip(p)) {
        None => None,
        Some((nb, n)) => spec_parse_from_email_sep(s, p + n, t, nb),
    }
}

/// Continues a record parse at the separator before the email.
pub open spec fn spec_parse_from_email_sep(s: Seq<u8>, p: int, t: nat, nb: Seq<u8>) -> Option<
    RecordView,
> {
    if !has_lit_at(s, p, lit_email_sep()) {
        None
    } else {
        spec_parse_from_email(s, p + 11, t, nb)
    }
}

/// Continues a record parse at the email field.
pub open spec fn spec_parse_from_email(s: Seq<u8>, p: int, t: nat, nb: Seq<u8>) -> Option<
    RecordView,
> {
    match spec_parse_string_body(s.skip(p)) {
        None => None,
        Some((eb, n)) => spec_parse_from_contents_sep(s, p + n, t, nb, eb),
    }
}

/// Continues a record parse at the separator before the contents.
pub open spec fn spec_parse_from_contents_sep(
    s: Seq<u8>,
    p: int,
    t: nat,
    nb: Seq<u8>,
    eb: Seq<u8>,
) -> Option<RecordView> {
    if !has_lit_at(s, p, lit_contents_sep()) {
        None
    } else {
        spec_parse_from_contents(s, p + 14, t, nb, eb)
    }
}

/// Continues a record parse at the contents field.
pub open spec fn spec_parse_from_contents(
    s: Seq<u8>,
    p: int,
    t: nat,
    nb: Seq<u8>,
    eb: Seq<u8>,
) -> Option<RecordView> {
    match spec_parse_string_body(s.skip(p)) {
        None => None,
        Some((cb, n)) => spec_parse_finish(s, p + n, t, nb, eb, cb),
    }
}

/// Finishes a record parse: the closing literal must end the line and the
/// three fields must be valid UTF-8.
pub open spec fn spec_parse_finish(
    s: Seq<u8>,
    p: int,
    t: nat,
    nb: Seq<u8>,
    eb: Seq<u8>,
    cb: Seq<u8>,
) -> Option<RecordView> {
    if !(has_lit_at(s, p, lit_tail()) && p + 2 == s.len()) {
        None
    } else if !(valid_utf8(nb) && valid_utf8(eb) && valid_utf8(cb)) {
        None
    } else {
        Some(
            RecordView {
                timestamp: t as int,
                name: decode_utf8(nb),
                email: decode_utf8(eb),
                contents: decode_utf8(cb),
            },
        )
    }
}

/// The stored line of a well-formed record carries each of its pieces at
/// the expected position.
#[verifier::rlimit(100)]
proof fn lemma_encode_segments(v: RecordView)
    requires
        wf_record(v),
    ensures
        ({
            let nb = encode_utf8(v.name);
            let eb = encode_utf8(v.email);
            let cb = encode_utf8(v.contents);
            let ts = numeral::dec_digits(v.timestamp as nat);
            let s = spec_encode_record(v);
            let p1 = 13 + ts.len() as int;
            let p2 = p1 + 9 + esc(nb).len() as int;
            let p3 = p2 + 11 + esc(eb).len() as int;
            let p4 = p3 + 14 + esc(cb).len() as int;
            &&& has_lit_at(s, 0, lit_header())
            &&& s.skip(13) == ts + (lit_name_sep() + (esc(nb) + (lit_email_sep() + (esc(eb) + (
            lit_contents_sep() + (esc(cb) + lit_tail()))))))
            &&& has_lit_at(s, p1, lit_name_sep())
            &&& s.skip(p1 + 9) == esc(nb) + (lit_email_sep() + (esc(eb) + (lit_contents_sep() + (
            esc(cb) + lit_tail()))))
            &&& has_lit_at(s, p2, lit_email_sep())
            &&& s.skip(p2 + 11) == esc(eb) + (lit_contents_sep() + (esc(cb) + lit_tail()))
            &&& has_lit_at(s, p3, lit_contents_sep())
            &&& s.skip(p3 + 14) == esc(cb) + lit_tail()
            &&& has_lit_at(s, p4, lit_tail())
            &&& p4 + 2 == s.len()
        }),
{
    lemma_lit_facts();
    let nb = encode_utf8(v.name);
    let eb = encode_utf8(v.email);
    let cb = encode_utf8(v.contents);
    let ts = numeral::dec_digits(v.timestamp as nat);
    let s = spec_encode_record(v);
    let r8 = lit_tail();
    let r7 = esc(cb) + r8;
    let r6 = lit_contents_sep() + r7;
    let r5 = esc(eb) + r6;
    let r4 = lit_email_sep() + r5;
    let r3 = esc(nb) + r4;
    let r2 = lit_name_sep() + r3;
    let r1 = ts + r2;
    assert(s == lit_header() + r1);
    let tn = ts.len() as int;
    let p1 = 13 + tn;
    let e1 = esc(nb).len() as int;
    let p2 = p1 + 9 + e1;
    let e2 = esc(eb).len() as int;
    let p3 = p2 + 11 + e2;
    let e3 = esc(cb).len() as int;
    let p4 = p3 + 14 + e3;
    lemma_split_concat(lit_header(), r1);
    assert(has_lit_at(s, 0, lit_header()));
    assert(s.skip(13) == r1);
    lemma_split_concat(ts, r2);
    lemma_skip_skip(s, 13, tn);
    assert(s.skip(p1) == r2);
    lemma_subrange_skip(s, p1, 9);
    lemma_split_concat(lit_name_sep(), r3);
    assert(has_lit_at(s, p1, lit_name_sep()));
    lemma_skip_skip(s, p1, 9);
    assert(s.skip(p1 + 9) == r3);
    lemma_split_concat(esc(nb), r4);
    lemma_skip_skip(s, p1 + 9, e1);
    assert(s.skip(p2) == r4);
    lemma_subrange_skip(s, p2, 11);
    lemma_split_concat(lit_email_sep(), r5);
    assert(has_lit_at(s, p2, lit_email_sep()));
    lemma_skip_skip(s, p2, 11);
    assert(s.skip(p2 + 11) == r5);
    lemma_split_concat(esc(eb), r6);
    lemma_skip_skip(s, p2 + 11, e2);
    assert(s.skip(p3) == r6);
    lemma_subrange_skip(s, p3, 14);
    lemma_split_concat(lit_contents_sep(), r7);
    assert(has_lit_at(s, p3, lit_contents_sep()));
    lemma_skip_skip(s, p3, 14);
    assert(s.skip(p3 + 14) == r7);
    lemma_split_concat(esc(cb), r8);
    lemma_skip_skip(s, p3 + 14, e3);
    assert(s.skip(p4) == r8);
    lemma_subrange_skip(s, p4, 2);
    assert(r8.subrange(0, 2) =~= lit_tail());
    assert(has_lit_at(s, p4, lit_tail()));
    assert(p4 + 2 == s.len());
}

/// Walks the record parse through its stages, given the result of each
/// component parser.
proof fn lemma_parse_chain(
    s: Seq<u8>,
    t: nat,
    tn: int,
    e1: int,
    e2: int,
    e3: int,
    nb: Seq<u8>,
    eb: Seq<u8>,
    cb: Seq<u8>,
)
    requires
        has_lit_at(s, 0, lit_header()),
        spec_parse_number(s.skip(13)) == Some((t, tn)),
        has_lit_at(s, 13 + tn, lit_name_sep()),
        spec_parse_string_body(s.skip(13 + tn + 9)) == Some((nb, e1)),
        has_lit_at(s, 13 + tn + 9 + e1, lit_email_sep()),
        spec_parse_string_body(s.skip(13 + tn + 9 + e1 + 11)) == Some((eb, e2)),
        has_lit_at(s, 13 + tn + 9 + e1 + 11 + e2, lit_contents_sep()),
        spec_parse_string_body(s.skip(13 + tn + 9 + e1 + 11 + e2 + 14)) == Some((cb, e3)),
        has_lit_at(s, 13 + tn + 9 + e1 + 11 + e2 + 14 + e3, lit_tail()),
        13 + tn + 9 + e1 + 11 + e2 + 14 + e3 + 2 == s.len(),
        valid_utf8(nb),
        valid_utf8(eb),
        valid_utf8(cb),
    ensures
        spec_parse_record(s) == Some(
            RecordView {
                timestamp: t as int,
                name: decode_utf8(nb),
                email: decode_utf8(eb),
                contents: decode_utf8(cb),
            },
        ),
{
    lemma_lit_facts();
    let p1 = 13 + tn;
    let p2 = p1 + 9 + e1;
    let p3 = p2 + 11 + e2;
    let p4 = p3 + 14 + e3;
    assert(spec_parse_record(s) == spec_parse_from_timestamp(s, 13));
    assert(spec_parse_from_timestamp(s, 13) == spec_parse_from_name_sep(s, p1, t));
    assert(spec_parse_from_name_sep(s, p1, t) == spec_parse_from_name(s, p1 + 9, t));
    assert(spec_parse_from_name(s, p1 + 9, t) == spec_parse_from_email_sep(s, p2, t, nb));
    assert(spec_parse_from_email_sep(s, p2, t, nb) == spec_parse_from_email(s, p2 + 11, t, nb));
    assert(spec_parse_from_email(s, p2 + 11, t, nb) == spec_parse_from_contents_sep(
        s,
        p3,
        t,
        nb,
        eb,
    ));
    assert(spec_parse_from_contents_sep(s, p3, t, nb, eb) == spec_parse_from_contents(
        s,
        p3 + 14,
        t,
        nb,
        eb,
    ));
    assert(spec_parse_from_contents(s, p3 + 14, t, nb, eb) == spec_parse_finish(
        s,
        p4,
        t,
        nb,
        eb,
        cb,
    ));
}

/// Parsing inverts encoding: every well-formed record round-trips through
/// its stored line.
#[verifier::rlimit(100)]
pub proof fn lemma_parse_encode_record(v: RecordView)
    requires
        wf_record(v),
    ensures
        spec_parse_record(spec_encode_record(v)) == Some(v),
{
    lemma_lit_facts();
    let nb = encode_utf8(v.name);
    let eb = encode_utf8(v.email);
    let cb = encode_utf8(v.contents);
    let ts = numeral::dec_digits(v.timestamp as nat);
    let s = spec_encode_record(v);
    let tn = ts.len() as int;
    let p1 = 13 + tn;
    let e1 = esc(nb).len() as int;
    let p2 = p1 + 9 + e1;
    let e2 = esc(eb).len() as int;
    let p3 = p2 + 11 + e2;
    let e3 = esc(cb).len() as int;
    lemma_encode_segments(v);
    let r4 = lit_email_sep() + (esc(eb) + (lit_contents_sep() + (esc(cb) + lit_tail())));
    let r6 = lit_contents_sep() + (esc(cb) + lit_tail());
    let r8 = lit_tail();
    lemma_parse_number_round(v.timestamp as nat, lit_name_sep() + (esc(nb) + r4));
    assert(spec_parse_number(s.skip(13)) == Some((v.timestamp as nat, tn)));
    lemma_parse_esc(nb, r4);
    assert(spec_parse_string_body(s.skip(p1 + 9)) == Some((nb, e1)));
    lemma_parse_esc(eb, r6);
    assert(spec_parse_string_body(s.skip(p2 + 11)) == Some((eb, e2)));
    lemma_parse_esc(cb, r8);
    assert(spec_parse_string_body(s.skip(p3 + 14)) == Some((cb, e3)));
    encode_utf8_valid_utf8(v.name);
    encode_utf8_valid_utf8(v.email);
    encode_utf8_valid_utf8(v.contents);
    encode_utf8_decode_utf8(v.name);
    encode_utf8_decode_utf8(v.email);
    encode_utf8_decode_utf8(v.contents);
    lemma_parse_chain(s, v.timestamp as nat, tn, e1, e2, e3, nb, eb, cb);
}

/// Rebuilds a line from its parsed pieces.
#[verifier::rlimit(100)]
proof fn lemma_reassemble(
    s: Seq<u8>,
    k: int,
    n1: int,
    n2: int,
    n3: int,
    t: nat,
    nb: Seq<u8>,
    eb: Seq<u8>,
    cb: Seq<u8>,
)
    requires
        0 < k,
        0 <= n1,
        0 <= n2,
        0 <= n3,
        13 + k + 9 + n1 + 11 + n2 + 14 + n3 + 2 == s.len(),
        s.subrange(0, 13) == lit_header(),
        s.skip(13).take(k) == numeral::dec_digits(t),
        s.subrange(13 + k, 13 + k + 9) == lit_name_sep(),
        s.skip(13 + k + 9).take(n1) == esc(nb),
        s.subrange(13 + k + 9 + n1, 13 + k + 9 + n1 + 11) == lit_email_sep(),
        s.skip(13 + k + 9 + n1 + 11).take(n2) == esc(eb),
        s.subrange(13 + k + 9 + n1 + 11 + n2, 13 + k + 9 + n1 + 11 + n2 + 14)
            == lit_contents_sep(),
        s.skip(13 + k + 9 + n1 + 11 + n2 + 14).take(n3) == esc(cb),
        s.subrange(s.len() - 2, s.len() as int) == lit_tail(),
    ensures
        s == lit_header() + (numeral::dec_digits(t) + (lit_name_sep() + (esc(nb) + (
        lit_email_sep() + (esc(eb) + (lit_contents_sep() + (esc(cb) + lit_tail()))))))),
{
    lemma_lit_facts();
    let p1 = 13 + k;
    let p2 = p1 + 9 + n1;
    let p3 = p2 + 11 + n2;
    let p4 = p3 + 14 + n3;
    lemma_subrange_skip(s, p4, 2);
    assert(s.skip(p4).take(2) == lit_tail());
    lemma_skip_split(s, p4, 2);
    assert(s.skip(p4 + 2) =~= Seq::<u8>::empty());
    assert(lit_tail() + Seq::<u8>::empty() =~= lit_tail());
    assert(s.skip(p4) == lit_tail());
    lemma_skip_split(s, p3 + 14, n3);
    lemma_skip_skip(s, p3 + 14, n3);
    assert(s.skip(p3 + 14) == esc(cb) + lit_tail());
    lemma_subrange_skip(s, p3, 14);
    lemma_skip_split(s, p3, 14);
    lemma_skip_skip(s, p3, 14);
    assert(s.skip(p3) == lit_contents_sep() + (esc(cb) + lit_tail()));
    lemma_skip_split(s, p2 + 11, n2);
    lemma_skip_skip(s, p2 + 11, n2);
    assert(s.skip(p2 + 11) == esc(eb) + (lit_contents_sep() + (esc(cb) + lit_tail())));
    lemma_subrange_skip(s, p2, 11);
    lemma_skip_split(s, p2, 11);
    lemma_skip_skip(s, p2, 11);
    assert(s.skip(p2) == lit_email_sep() + (esc(eb) + (lit_contents_sep() + (esc(cb)
        + lit_tail()))));
    lemma_skip_split(s, p1 + 9, n1);
    lemma_skip_skip(s, p1 + 9, n1);
    assert(s.skip(p1 + 9) == esc(nb) + (lit_email_sep() + (esc(eb) + (lit_contents_sep() + (esc(
        cb,
    ) + lit_tail())))));
    lemma_subrange_skip(s, p1, 9);
    lemma_skip_split(s, p1, 9);
    lemma_skip_skip(s, p1, 9);
    assert(s.skip(p1) == lit_name_sep() + (esc(nb) + (lit_email_sep() + (esc(eb) + (
    lit_contents_sep() + (esc(cb) + lit_tail()))))));
    lemma_skip_split(s, 13, k);
    lemma_skip_skip(s, 13, k);
    assert(s.skip(13) == numeral::dec_digits(t) + s.skip(p1));
    lemma_skip_split(s, 0, 13);
    assert(s.skip(0) =~= s);
    assert(s.skip(0).subrange(0, 13) == s.subrange(0, 13));
    assert(s.skip(0).skip(13) =~= s.skip(13));
    assert(s == lit_header() + s.skip(13));
}

/// Soundness of the record parser: whatever it accepts is the canonical
/// encoding of the record it returns, so stored lines are unambiguous.
#[verifier::rlimit(100)]
pub proof fn lemma_parse_record_sound(s: Seq<u8>)
    ensures
        match spec_parse_record(s) {
            Some(v) => wf_record(v) && s == spec_encode_record(v),
            None => true,
        },
{
    if spec_parse_record(s) is Some {
        lemma_lit_facts();
        let (t, k) = spec_parse_number(s.skip(13)).unwrap();
        lemma_parse_number_sound(s.skip(13));
        let p1 = 13 + k;
        let (nb, n1) = spec_parse_string_body(s.skip(p1 + 9)).unwrap();
        lemma_parse_string_body_sound(s.skip(p1 + 9));
        let p2 = p1 + 9 + n1;
        let (eb, n2) = spec_parse_string_body(s.skip(p2 + 11)).unwrap();
        lemma_parse_string_body_sound(s.skip(p2 + 11));
        let p3 = p2 + 11 + n2;
        let (cb, n3) = spec_parse_string_body(s.skip(p3 + 14)).unwrap();
        lemma_parse_string_body_sound(s.skip(p3 + 14));
        let p4 = p3 + 14 + n3;
        let v = spec_parse_record(s).unwrap();
        assert(v == spec_parse_finish(s, p4, t, nb, eb, cb).unwrap());
        assert(has_lit_at(s, p4, lit_tail()) && p4 + 2 == s.len());
        assert(valid_utf8(nb) && valid_utf8(eb) && valid_utf8(cb));
        assert(v.timestamp == t as int && v.name == decode_utf8(nb) && v.email == decode_utf8(eb)
            && v.contents == decode_utf8(cb));
        decode_utf8_encode_utf8(nb);
        decode_utf8_encode_utf8(eb);
        decode_utf8_encode_utf8(cb);
        assert(encode_utf8(v.name) == nb);
        assert(s.skip(13).take(k) == numeral::dec_digits(t));
        assert(s.skip(p1 + 9).take(n1) == esc(nb));
        assert(s.skip(p2 + 11).take(n2) == esc(eb));
        assert(s.skip(p3 + 14).take(n3) == esc(cb));
        assert(s.subrange(p4, p4 + 2) == lit_tail());
        lemma_reassemble(s, k, n1, n2, n3, t, nb, eb, cb);
        assert(s == spec_encode_record(v));
    }
}

/// Builds the header literal for the encoder and parser.
fn header_vec() -> (v: Vec<u8>)
    ensures
        v@ == lit_header(),
{
    let v: Vec<u8> = vec![0x7b, 0x22, 0x74, 0x69, 0x6d, 0x65, 0x73, 0x74, 0x61, 0x6d, 0x70, 0x22, 0x3a];
    proof {
        reveal(lit_header);
        assert(v@ =~= lit_header());
    }
    v
}

/// Builds the name separator literal.
fn name_sep_vec() -> (v: Vec<u8>)
    ensures
        v@ == lit_name_sep(),
{
    let v: Vec<u8> = vec![0x2c, 0x22, 0x6e, 0x61, 0x6d, 0x65, 0x22, 0x3a, 0x22];
    proof {
        reveal(lit_name_sep);
        assert(v@ =~= lit_name_sep());
    }
    v
}

/// Builds the email separator literal.
fn email_sep_vec() -> (v: Vec<u8>)
    ensures
        v@ == lit_email_sep(),
{
    let v: Vec<u8> = vec![0x22, 0x2c, 0x22, 0x65, 0x6d, 0x61, 0x69, 0x6c, 0x22, 0x3a, 0x22];
    proof {
        reveal(lit_email_sep);
        assert(v@ =~= lit_email_sep());
    }
    v
}

/// Builds the contents separator literal.
fn contents_sep_vec() -> (v: Vec<u8>)
    ensures
        v@ == lit_contents_sep(),
{
    let v: Vec<u8> = vec![0x22, 0x2c, 0x22, 0x63, 0x6f, 0x6e, 0x74, 0x65, 0x6e, 0x74, 0x73, 0x22, 0x3a, 0x22];
    proof {
        reveal(lit_contents_sep);
        assert(v@ =~= lit_contents_sep());
    }
    v
}

/// Builds the closing literal.
fn tail_vec() -> (v: Vec<u8>)
    ensures
        v@ == lit_tail(),
{
    let v: Vec<u8> = vec![0x22, 0x7d];
    proof {
        reveal(lit_tail);
        assert(v@ =~= lit_tail());
    }
    v
}

/// Checks for `lit` at position `pos` of `s`, returning the position just
/// after it.
fn eat_lit(s: &[u8], pos: usize, lit: &[u8]) -> (r: Option<usize>)
    requires
        pos <= s@.len(),
    ensures
        match r {
            Some(p) => has_lit_at(s@, pos as int, lit@) && p == pos + lit@.len(),
            None => !has_lit_at(s@, pos as int, lit@),
        },
{
    if s.len() - pos < lit.len() {
        return None;
    }
    let mut j: usize = 0;
    while j < lit.len()
        invariant
            s@.len() <= usize::MAX,
            pos + lit@.len() <= s@.len(),
            0 <= j <= lit@.len(),
            forall|q: int| 0 <= q < j ==> s@[pos + q] == #[trigger] lit@[q],
        decreases lit@.len() - j,
    {
        if s[pos + j] != lit[j] {
            proof {
                let sub = s@.subrange(pos as int, pos + lit@.len());
                assert(sub[j as int] == s@[pos + j]);
            }
            return None;
        }
        j = j + 1;
    }
    proof {
        assert(s@.subrange(pos as int, pos + lit@.len()) =~= lit@);
    }
    Some(pos + lit.len())
}

/// Parses the decimal number at position `start` of `s`.
fn parse_number_at(s: &[u8], start: usize) -> (r: Option<(u128, usize)>)
    requires
        start <= s@.len(),
    ensures
        match spec_parse_number(s@.skip(start as int)) {
            Some((n, k)) => r matches Some(p) && p.0 as nat == n && p.1 == start + k && p.1
                <= s@.len(),
            None => r is None,
        },
{
    let ghost rem = s@.skip(start as int);
    let mut end: usize = start;
    let mut scanning = true;
    while scanning
        invariant
            start <= end <= s@.len(),
            rem == s@.skip(start as int),
            forall|j: int| 0 <= j < end - start ==> numeral::is_digit(#[trigger] rem[j]),
            !scanning ==> (end - start == rem.len() || !numeral::is_digit(rem[end - start])),
        decreases s@.len() - end + (if scanning { 1int } else { 0int }),
    {
        if end < s.len() {
            let b = s[end];
            if 0x30 <= b && b <= 0x39 {
                proof {
                    assert(rem[end - start] == s@[end as int]);
                }
                end = end + 1;
            } else {
                proof {
                    assert(rem[end - start] == s@[end as int]);
                }
                scanning = false;
            }
        } else {
            scanning = false;
        }
    }
    let ghost k = end - start;
    proof {
        assert(rem.take(k as int).len() == k);
        assert(forall|j: int|
            0 <= j < k ==> #[trigger] rem.take(k as int)[j] == rem[j]);
        lemma_digit_prefix_exact(rem, k as int);
    }
    if end == start {
        return None;
    }
    if end > start + 1 && s[start] == 0x30 {
        proof {
            assert(rem[0] == s@[start as int]);
        }
        return None;
    }
    let mut acc: u128 = 0;
    let mut i: usize = start;
    while i < end
        invariant
            start <= i <= end <= s@.len(),
            rem == s@.skip(start as int),
            k == end - start,
            digit_prefix_len(rem) == k,
            forall|j: int| 0 <= j < k ==> numeral::is_digit(#[trigger] rem[j]),
            acc as nat == numeral::digits_value(rem.take(i - start)),
        decreases end - i,
    {
        let b = s[i];
        proof {
            assert(rem[i - start] == s@[i as int]);
            assert(numeral::is_digit(rem[i - start]));
        }
        let d: u128 = (b - 0x30) as u128;
        proof {
            numeral::lemma_digits_value_snoc(rem, i - start);
        }
        if acc > u128::MAX / 10 || (acc == u128::MAX / 10 && d > u128::MAX % 10) {
            proof {
                numeral::lemma_digits_value_mono(rem, i - start + 1, k as int);
            }
            return None;
        }
        acc = acc * 10 + d;
        i = i + 1;
    }
    proof {
        assert(rem.take(k as int).len() == k);
    }
    Some((acc, end))
}

/// The abstract record stored for a message.
pub open spec fn record_of(m: MessageView) -> RecordView {
    RecordView { timestamp: m.timestamp, name: m.name, email: m.email, contents: m.contents }
}

/// The stored form of a message: the raw text fields plus the timestamp,
/// before re-validation.
#[derive(Debug)]
pub struct MessageDTO {
    pub timestamp: u128,
    pub name: String,
    pub email: String,
    pub contents: String,
}

impl View for MessageDTO {
    type V = RecordView;

    open spec fn view(&self) -> RecordView {
        RecordView {
            timestamp: self.timestamp as int,
            name: self.name@,
            email: self.email@,
            contents: self.contents@,
        }
    }
}

impl MessageDTO {
    /// Captures the stored form of a message.
    pub fn from(msg: &Message) -> (dto: MessageDTO)
        ensures
            dto@ == record_of(msg@),
    {
        MessageDTO {
            timestamp: msg.timestamp(),
            name: msg.name().as_str().to_owned(),
            email: msg.email().as_str().to_owned(),
            contents: msg.contents().as_str().to_owned(),
        }
    }
}

/// Encodes one record as its canonical stored line (without the trailing
/// newline).
pub fn encode_record(dto: &MessageDTO) -> (r: Vec<u8>)
    ensures
        r@ == spec_encode_record(dto@),
{
    let mut out = header_vec();
    let mut ts = numeral::render_u128(dto.timestamp);
    out.append(&mut ts);
    let mut sep1 = name_sep_vec();
    out.append(&mut sep1);
    let mut nb = escape_bytes(dto.name.as_str().as_bytes());
    out.append(&mut nb);
    let mut sep2 = email_sep_vec();
    out.append(&mut sep2);
    let mut eb = escape_bytes(dto.email.as_str().as_bytes());
    out.append(&mut eb);
    let mut sep3 = contents_sep_vec();
    out.append(&mut sep3);
    let mut cb = escape_bytes(dto.contents.as_str().as_bytes());
    out.append(&mut cb);
    let mut tl = tail_vec();
    out.append(&mut tl);
    proof {
        assert(out@ =~= spec_encode_record(dto@));
    }
    out
}

/// Parses one stored line; returns the record exactly when the line is a
/// canonical record encoding whose fields are valid UTF-8.
pub fn parse_record(s: &[u8]) -> (r: Option<MessageDTO>)
    ensures
        match spec_parse_record(s@) {
            Some(v) => r matches Some(dto) && dto@ == v,
            None => r is None,
        },
{
    proof {
        lemma_lit_facts();
    }
    let header = header_vec();
    let p0 = match eat_lit(s, 0, header.as_slice()) {
        Some(p) => p,
        None => {
            return None;
        },
    };
    let (num, p1) = match parse_number_at(s, p0) {
        Some(p) => p,
        None => {
            return None;
        },
    };
    let ghost t = num as nat;
    let sep1 = name_sep_vec();
    let q1 = match eat_lit(s, p1, sep1.as_slice()) {
        Some(p) => p,
        None => {
            return None;
        },
    };
    let (nb, p2) = match parse_string_body(s, q1) {
        Some(p) => p,
        None => {
            return None;
        },
    };
    let sep2 = email_sep_vec();
    let q2 = match eat_lit(s, p2, sep2.as_slice()) {
        Some(p) => p,
        None => {
            return None;
        },
    };
    let (eb, p3) = match parse_string_body(s, q2) {
        Some(p) => p,
        None => {
            return None;
        },
    };
    let sep3 = contents_sep_vec();
    let q3 = match eat_lit(s, p3, sep3.as_slice()) {
        Some(p) => p,
        None => {
            return None;
        },
    };
    let (cb, p4) = match parse_string_body(s, q3) {
        Some(p) => p,
        None => {
            return None;
        },
    };
    let tl = tail_vec();
    let p5 = match eat_lit(s, p4, tl.as_slice()) {
        Some(p) => p,
        None => {
            return None;
        },
    };
    if p5 != s.len() {
        return None;
    }
    let ghost nbv = nb@;
    let ghost ebv = eb@;
    let ghost cbv = cb@;
    let name = match bytes_to_string(nb) {
        Some(x) => x,
        None => {
            return None;
        },
    };
    let email = match bytes_to_string(eb) {
        Some(x) => x,
        None => {
            return None;
        },
    };
    let contents = match bytes_to_string(cb) {
        Some(x) => x,
        None => {
            return None;
        },
    };
    Some(MessageDTO { timestamp: num, name, email, contents })
}

/// Index of the first newline byte in `s`, or `s.len()` if there is none.
pub open spec fn first_nl(s: Seq<u8>) -> int
    decreases s.len(),
{
    if s.len() == 0 {
        0
    } else if s[0] == 0x0a {
        0
    } else {
        1 + first_nl(s.drop_first())
    }
}

/// Position and bounds of the first newline.
pub proof fn lemma_first_nl(s: Seq<u8>)
    ensures
        0 <= first_nl(s) <= s.len(),
        forall|i: int| 0 <= i < first_nl(s) ==> s[i] != 0x0a,
        first_nl(s) < s.len() ==> s[first_nl(s)] == 0x0a,
    decreases s.len(),
{
    if s.len() > 0 && s[0] != 0x0a {
        lemma_first_nl(s.drop_first());
        assert forall|i: int| 0 <= i < first_nl(s) implies s[i] != 0x0a by {
            if i > 0 {
                assert(s.drop_first()[i - 1] == s[i]);
            }
        }
        if first_nl(s) < s.len() {
            assert(s.drop_first()[first_nl(s) - 1] == s[first_nl(s)]);
        }
    }
}

/// A newline-free prefix of length `k` followed by a newline (or the end
/// of input) pins down the first newline.
pub proof fn lemma_first_nl_exact(s: Seq<u8>, k: int)
    requires
        0 <= k <= s.len(),
        forall|i: int| 0 <= i < k ==> s[i] != 0x0a,
        k == s.len() || s[k] == 0x0a,
    ensures
        first_nl(s) == k,
    decreases k,
{
    if k == 0 {
    } else {
        let t = s.drop_first();
        assert forall|i: int| 0 <= i < k - 1 implies t[i] != 0x0a by {
            assert(t[i] == s[i + 1]);
        }
        if k < s.len() {
            assert(t[k - 1] == s[k]);
        }
        lemma_first_nl_exact(t, k - 1);
    }
}

/// Parses a whole log file: a sequence of newline-terminated record
/// lines.  Fails if any line is malformed or the last line is
/// unterminated.
pub open spec fn spec_parse_file(s: Seq<u8>) -> Option<Seq<RecordView>>
    decreases s.len(),
{
    if s.len() == 0 {
        Some(Seq::empty())
    } else {
        let j = first_nl(s);
        if j < 0 || j >= s.len() {
            None
        } else {
            match spec_parse_record(s.take(j)) {
                None => None,
                Some(v) => match spec_parse_file(s.skip(j + 1)) {
                    None => None,
                    Some(rest) => Some(seq![v] + rest),
                },
            }
        }
    }
}

/// A record's stored line never contains a newline byte.
#[verifier::rlimit(100)]
pub proof fn lemma_encode_no_newline(v: RecordView)
    ensures
        forall|i: int|
            0 <= i < spec_encode_record(v).len() ==> #[trigger] spec_encode_record(v)[i] != 0x0a,
{
    let nb = encode_utf8(v.name);
    let eb = encode_utf8(v.email);
    let cb = encode_utf8(v.contents);
    let ts = numeral::dec_digits(v.timestamp as nat);
    lemma_esc_no_newline(nb);
    lemma_esc_no_newline(eb);
    lemma_esc_no_newline(cb);
    numeral::lemma_dec_digits_canonical(v.timestamp as nat);
    reveal(lit_header);
    reveal(lit_name_sep);
    reveal(lit_email_sep);
    reveal(lit_contents_sep);
    reveal(lit_tail);
    let s = spec_encode_record(v);
    let r8 = lit_tail();
    let r7 = esc(cb) + r8;
    let r6 = lit_contents_sep() + r7;
    let r5 = esc(eb) + r6;
    let r4 = lit_email_sep() + r5;
    let r3 = esc(nb) + r4;
    let r2 = lit_name_sep() + r3;
    let r1 = ts + r2;
    assert forall|i: int| 0 <= i < s.len() implies #[trigger] s[i] != 0x0a by {
        assert(s == lit_header() + r1);
        if i >= 13 {
            assert(s[i] == r1[i - 13]);
            let i1 = i - 13;
            if i1 >= ts.len() {
                assert(r1[i1] == r2[i1 - ts.len()]);
                let i2 = i1 - ts.len() as int;
                if i2 >= 9 {
                    assert(r2[i2] == r3[i2 - 9]);
                    let i3 = i2 - 9;
                    if i3 >= esc(nb).len() {
                        assert(r3[i3] == r4[i3 - esc(nb).len()]);
                        let i4 = i3 - esc(nb).len() as int;
                        if i4 >= 11 {
                            assert(r4[i4] == r5[i4 - 11]);
                            let i5 = i4 - 11;
                            if i5 >= esc(eb).len() {
                                assert(r5[i5] == r6[i5 - esc(eb).len()]);
                                let i6 = i5 - esc(eb).len() as int;
                                if i6 >= 14 {
                                    assert(r6[i6] == r7[i6 - 14]);
                                    let i7 = i6 - 14;
                                    if i7 >= esc(cb).len() {
                                        assert(r7[i7] == r8[i7 - esc(cb).len()]);
                                    } else {
                                        assert(r7[i7] == esc(cb)[i7]);
                                    }
                                } else {
                                    assert(r6[i6] == lit_contents_sep()[i6]);
                                }
                            } else {
                                assert(r5[i5] == esc(eb)[i5]);
                            }
                        } else {
                            assert(r4[i4] == lit_email_sep()[i4]);
                        }
                    } else {
                        assert(r3[i3] == esc(nb)[i3]);
                    }
                } else {
                    assert(r2[i2] == lit_name_sep()[i2]);
                    assert(numeral::is_digit(ts[0]) ==> true);
                }
            } else {
                assert(r1[i1] == ts[i1]);
                assert(numeral::is_digit(ts[i1]));
            }
        } else {
            assert(s[i] == lit_header()[i]);
        }
    }
}

/// The first newline of a stored line plus newline plus more text stands
/// right after the line.
pub proof fn lemma_line_first_nl(line: Seq<u8>, rest: Seq<u8>)
    requires
        forall|i: int| 0 <= i < line.len() ==> line[i] != 0x0a,
    ensures
        first_nl(line + seq![0x0a] + rest) == line.len(),
{
    let s = line + seq![0x0a] + rest;
    assert forall|i: int| 0 <= i < line.len() implies s[i] != 0x0a by {
        assert(s[i] == line[i]);
    }
    assert(s[line.len() as int] == 0x0a);
    lemma_first_nl_exact(s, line.len() as int);
}

/// Appending one newline-free line that parses to record `v` extends the
/// parse of a file by `v`.
proof fn lemma_parse_file_snoc_line(s: Seq<u8>, line: Seq<u8>, v: RecordView)
    requires
        spec_parse_file(s) is Some,
        forall|i: int| 0 <= i < line.len() ==> line[i] != 0x0a,
        spec_parse_record(line) == Some(v),
    ensures
        spec_parse_file(s + line + seq![0x0a]) == Some(spec_parse_file(s).unwrap().push(v)),
    decreases s.len(),
{
    let s2 = s + line + seq![0x0a];
    if s.len() == 0 {
        assert(s2 =~= line + seq![0x0a] + Seq::<u8>::empty());
        lemma_line_first_nl(line, Seq::<u8>::empty());
        assert(s2.len() == line.len() + 1);
        assert(first_nl(s2) == line.len());
        assert(s2.take(line.len() as int) =~= line);
        assert(s2.skip(line.len() + 1int) =~= Seq::<u8>::empty());
        assert(spec_parse_file(Seq::<u8>::empty()) == Some(Seq::<RecordView>::empty()));
        assert(spec_parse_file(s2) == Some(seq![v] + Seq::<RecordView>::empty()));
        assert(seq![v] + Seq::<RecordView>::empty() =~= spec_parse_file(s).unwrap().push(v));
    } else {
        let j = first_nl(s);
        lemma_first_nl(s);
        assert(j < s.len());
        assert forall|i: int| 0 <= i < j implies s2[i] != 0x0a by {
            assert(s2[i] == s[i]);
        }
        assert(s2[j] == s[j]);
        lemma_first_nl_exact(s2, j);
        assert(s2.take(j) =~= s.take(j));
        assert(s2.skip(j + 1) =~= s.skip(j + 1) + line + seq![0x0a]);
        lemma_parse_file_snoc_line(s.skip(j + 1), line, v);
        let v0 = spec_parse_record(s.take(j)).unwrap();
        let rest = spec_parse_file(s.skip(j + 1)).unwrap();
        assert(spec_parse_file(s2) == Some(seq![v0] + rest.push(v)));
        assert(seq![v0] + rest.push(v) =~= (seq![v0] + rest).push(v));
    }
}

/// Appending one well-formed record line to a parsable file appends that
/// record to the parse.
pub proof fn lemma_parse_file_snoc(s: Seq<u8>, v: RecordView)
    requires
        wf_record(v),
        spec_parse_file(s) is Some,
    ensures
        spec_parse_file(s + spec_encode_record(v) + seq![0x0a]) == Some(
            spec_parse_file(s).unwrap().push(v),
        ),
{
    lemma_encode_no_newline(v);
    lemma_parse_encode_record(v);
    lemma_parse_file_snoc_line(s, spec_encode_record(v), v);
}

/// Parses a whole log file into its records.
pub fn parse_file(s: &[u8]) -> (r: Option<Vec<MessageDTO>>)
    ensures
        match spec_parse_file(s@) {
            Some(recs) => r matches Some(dtos) && dtos@.len() == recs.len() && (forall|i: int|
                0 <= i < recs.len() ==> #[trigger] dtos@[i]@ == recs[i]),
            None => r is None,
        },
{
    let mut out: Vec<MessageDTO> = Vec::new();
    let ghost mut done: Seq<RecordView> = Seq::empty();
    let mut pos: usize = 0;
    let slen = s.len();
    proof {
        assert(s@.len() == slen);
        assert(s@.skip(0) =~= s@);
        if spec_parse_file(s@) is Some {
            assert(Seq::<RecordView>::empty() + spec_parse_file(s@).unwrap() =~= spec_parse_file(
                s@,
            ).unwrap());
        }
    }
    while pos < s.len()
        invariant
            0 <= pos <= s@.len(),
            s@.len() <= usize::MAX,
            out@.len() == done.len(),
            forall|i: int| 0 <= i < done.len() ==> #[trigger] out@[i]@ == done[i],
            match spec_parse_file(s@.skip(pos as int)) {
                Some(rest) => match spec_parse_file(s@) {
                    Some(all) => all == done + rest,
                    None => false,
                },
                None => spec_parse_file(s@) is None,
            },
        decreases s@.len() - pos,
    {
        let ghost rem = s@.skip(pos as int);
        // find the next newline
        let mut j: usize = pos;
        let mut scanning = true;
        while scanning
            invariant
                pos <= j <= s@.len(),
                s@.len() <= usize::MAX,
                rem == s@.skip(pos as int),
                forall|q: int| 0 <= q < j - pos ==> rem[q] != 0x0a,
                !scanning ==> (j - pos == rem.len() || rem[j - pos] == 0x0a),
            decreases s@.len() - j + (if scanning { 1int } else { 0int }),
        {
            if j < s.len() {
                let b = s[j];
                proof {
                    assert(rem[j - pos] == s@[j as int]);
                }
                if b == 0x0a {
                    scanning = false;
                } else {
                    j = j + 1;
                }
            } else {
                scanning = false;
            }
        }
        proof {
            lemma_first_nl_exact(rem, j - pos);
        }
        if j == s.len() {
            // unterminated final line
            return None;
        }
        let line = vstd::slice::slice_subrange(s, pos, j);
        proof {
            assert(line@ =~= rem.take(j - pos));
        }
        let dto = match parse_record(line) {
            Some(d) => d,
            None => {
                return None;
            },
        };
        proof {
            let rem2 = s@.skip(j + 1int);
            assert(rem.skip(j - pos + 1) =~= rem2);
            let v = spec_parse_record(rem.take(j - pos)).unwrap();
            match spec_parse_file(rem2) {
                Some(rest2) => {
                    assert(spec_parse_file(rem) == Some(seq![v] + rest2));
                    assert((done + seq![v]) + rest2 =~= done + (seq![v] + rest2));
                },
                None => {
                    assert(spec_parse_file(rem) is None);
                },
            }
            done = done + seq![v];
        }
        out.push(dto);
        pos = j + 1;
    }
    proof {
        assert(s@.skip(pos as int) =~= Seq::<u8>::empty());
        assert(done + Seq::<RecordView>::empty() =~= done);
    }
    Some(out)
}

} // verus!
