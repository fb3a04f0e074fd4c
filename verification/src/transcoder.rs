//! Reversible byte-to-hex transcoding.
//!
//! Every source byte becomes two uppercase hex digits; decoding parses
//! consecutive two-character groups back into byte values and renders each
//! byte as the single character with that code.

use vstd::prelude::*;
use crate::errors::FastaError;
use crate::text::{chars_of, string_from_chars};
use crate::structure::{spec_unwrap, unwrap_fasta};

verus! {

/// The uppercase hex digit for a value below sixteen.
pub open spec fn hex_digit(v: int) -> char {
    if v == 0 { '0' }
    else if v == 1 { '1' }
    else if v == 2 { '2' }
    else if v == 3 { '3' }
    else if v == 4 { '4' }
    else if v == 5 { '5' }
    else if v == 6 { '6' }
    else if v == 7 { '7' }
    else if v == 8 { '8' }
    else if v == 9 { '9' }
    else if v == 10 { 'A' }
    else if v == 11 { 'B' }
    else if v == 12 { 'C' }
    else if v == 13 { 'D' }
    else if v == 14 { 'E' }
    else if v == 15 { 'F' }
    else { '0' }
}

/// Numeric value of a hex digit, or `-1` for any other character.
/// The decoder accepts both letter cases; the encoder emits uppercase.
pub open spec fn hex_val(c: char) -> int {
    if c == '0' { 0 }
    else if c == '1' { 1 }
    else if c == '2' { 2 }
    else if c == '3' { 3 }
    else if c == '4' { 4 }
    else if c == '5' { 5 }
    else if c == '6' { 6 }
    else if c == '7' { 7 }
    else if c == '8' { 8 }
    else if c == '9' { 9 }
    else if c == 'A' || c == 'a' { 10 }
    else if c == 'B' || c == 'b' { 11 }
    else if c == 'C' || c == 'c' { 12 }
    else if c == 'D' || c == 'd' { 13 }
    else if c == 'E' || c == 'e' { 14 }
    else if c == 'F' || c == 'f' { 15 }
    else { -1 }
}

/// An uppercase hex digit, as the encoder emits them.
pub open spec fn is_upper_hex(c: char) -> bool {
    hex_val(c) >= 0 && c != 'a' && c != 'b' && c != 'c' && c != 'd' && c != 'e' && c != 'f'
}

/// The two-digit uppercase encoding of one byte.
pub open spec fn encode_byte(b: u8) -> Seq<char> {
    seq![hex_digit(b as int / 16), hex_digit(b as int % 16)]
}

/// The hex stream of a byte sequence: two digits per byte, in order.
pub open spec fn spec_encode(bytes: Seq<u8>) -> Seq<char>
    decreases bytes.len(),
{
    if bytes.len() == 0 {
        Seq::empty()
    } else {
        encode_byte(bytes[0]) + spec_encode(bytes.drop_first())
    }
}

/// A decodable hex stream: even length, every character a hex digit.
pub open spec fn valid_hex(s: Seq<char>) -> bool {
    s.len() % 2 == 0 && forall|i: int| 0 <= i < s.len() ==> hex_val(s[i]) >= 0
}

/// A hex stream as the encoder produces it: even length, uppercase digits.
pub open spec fn canonical_hex(s: Seq<char>) -> bool {
    s.len() % 2 == 0 && forall|i: int| 0 <= i < s.len() ==> is_upper_hex(#[trigger] s[i])
}

/// The value of one two-digit group.
pub open spec fn pair_val(a: char, b: char) -> int {
    hex_val(a) * 16 + hex_val(b)
}

/// The bytes read off a hex stream, two characters at a time.
/// Meaningful under `valid_hex`; a trailing lone character is ignored.
pub open spec fn spec_decode_bytes(s: Seq<char>) -> Seq<u8>
    decreases s.len(),
{
    if s.len() < 2 {
        Seq::empty()
    } else {
        seq![pair_val(s[0], s[1]) as u8] + spec_decode_bytes(s.skip(2))
    }
}

/// The text a byte sequence stands for: each byte as the character with
/// that code.
pub open spec fn chars_of_bytes(bytes: Seq<u8>) -> Seq<char> {
    bytes.map_values(|b: u8| b as char)
}

/// The text decoded from a hex stream.
pub open spec fn spec_decode_text(s: Seq<char>) -> Seq<char> {
    chars_of_bytes(spec_decode_bytes(s))
}

/// The text with a line feed appended when it does not already end in one.
pub open spec fn with_terminator(s: Seq<char>) -> Seq<char> {
    if s.len() > 0 && s[s.len() - 1] == '\n' { s } else { s.push('\n') }
}

/// Uppercase hex digit of a value below sixteen.
fn hex_digit_exec(v: u8) -> (c: char)
    requires
        v < 16,
    ensures
        c == hex_digit(v as int),
{
    if v == 0 { '0' }
    else if v == 1 { '1' }
    else if v == 2 { '2' }
    else if v == 3 { '3' }
    else if v == 4 { '4' }
    else if v == 5 { '5' }
    else if v == 6 { '6' }
    else if v == 7 { '7' }
    else if v == 8 { '8' }
    else if v == 9 { '9' }
    else if v == 10 { 'A' }
    else if v == 11 { 'B' }
    else if v == 12 { 'C' }
    else if v == 13 { 'D' }
    else if v == 14 { 'E' }
    else { 'F' }
}

/// Value of a hex digit character, `None` for any other character.
fn hex_val_exec(c: char) -> (r: Option<u8>)
    ensures
        match r {
            Some(v) => hex_val(c) == v && v < 16,
            None => hex_val(c) == -1,
        },
{
    if c == '0' { Some(0) }
    else if c == '1' { Some(1) }
    else if c == '2' { Some(2) }
    else if c == '3' { Some(3) }
    else if c == '4' { Some(4) }
    else if c == '5' { Some(5) }
    else if c == '6' { Some(6) }
    else if c == '7' { Some(7) }
    else if c == '8' { Some(8) }
    else if c == '9' { Some(9) }
    else if c == 'A' || c == 'a' { Some(10) }
    else if c == 'B' || c == 'b' { Some(11) }
    else if c == 'C' || c == 'c' { Some(12) }
    else if c == 'D' || c == 'd' { Some(13) }
    else if c == 'E' || c == 'e' { Some(14) }
    else if c == 'F' || c == 'f' { Some(15) }
    else { None }
}

/// Encodes a byte sequence as its uppercase hex stream.
pub fn encode(bytes: &Vec<u8>) -> (r: String)
    ensures
        r@ == spec_encode(bytes@),
{
    let mut out: Vec<char> = Vec::new();
    let mut i: usize = 0;
    proof {
        assert(bytes@.skip(0) =~= bytes@);
        assert(Seq::<char>::empty() + spec_encode(bytes@) =~= spec_encode(bytes@));
    }
    while i < bytes.len()
        invariant
            i <= bytes@.len(),
            spec_encode(bytes@) == out@ + spec_encode(bytes@.skip(i as int)),
        decreases bytes@.len() - i,
    {
        let b = bytes[i];
        out.push(hex_digit_exec(b / 16));
        out.push(hex_digit_exec(b % 16));
        proof {
            let s = bytes@.skip(i as int);
            assert(s[0] == bytes@[i as int]);
            assert(s.drop_first() =~= bytes@.skip(i as int + 1));
            assert(spec_encode(s) == encode_byte(bytes@[i as int]) + spec_encode(
                bytes@.skip(i as int + 1),
            ));
            assert(spec_encode(bytes@) =~= out@ + spec_encode(bytes@.skip(i as int + 1)));
        }
        i = i + 1;
    }
    proof {
        assert(spec_encode(bytes@.skip(bytes@.len() as int)) == Seq::<char>::empty());
        assert(spec_encode(bytes@) =~= out@);
    }
    string_from_chars(&out)
}

/// Decodes a hex stream to the bytes it encodes.
///
/// Returns `ParseOddLength` exactly when the stream length is odd, and
/// `ParseInvalidPair` exactly when the length is even but some character is
/// not a hex digit.
pub fn decode_hex(hex: &str) -> (r: Result<Vec<u8>, FastaError>)
    ensures
        match r {
            Ok(v) => valid_hex(hex@) && v@ == spec_decode_bytes(hex@),
            Err(e) => !valid_hex(hex@) && (e == FastaError::ParseOddLength <==> hex@.len() % 2
                != 0) && (e == FastaError::ParseInvalidPair <==> hex@.len() % 2 == 0),
        },
{
    let v = chars_of(hex);
    if v.len() % 2 != 0 {
        return Err(FastaError::ParseOddLength);
    }
    let mut out: Vec<u8> = Vec::new();
    let mut i: usize = 0;
    proof {
        assert(v@.skip(0) =~= v@);
        assert(Seq::<u8>::empty() + spec_decode_bytes(v@) =~= spec_decode_bytes(v@));
    }
    while i + 1 < v.len()
        invariant
            v@ == hex@,
            v@.len() % 2 == 0,
            i <= v@.len(),
            i % 2 == 0,
            forall|j: int| 0 <= j < i ==> hex_val(v@[j]) >= 0,
            spec_decode_bytes(v@) == out@ + spec_decode_bytes(v@.skip(i as int)),
        decreases v@.len() - i,
    {
        let a = match hex_val_exec(v[i]) {
            Some(x) => x,
            None => {
                return Err(FastaError::ParseInvalidPair);
            },
        };
        let b = match hex_val_exec(v[i + 1]) {
            Some(x) => x,
            None => {
                return Err(FastaError::ParseInvalidPair);
            },
        };
        out.push(a * 16 + b);
        proof {
            let s = v@.skip(i as int);
            assert(s[0] == v@[i as int]);
            assert(s[1] == v@[i as int + 1]);
            assert(s.skip(2) =~= v@.skip(i as int + 2));
            assert(pair_val(s[0], s[1]) == a * 16 + b);
            assert(spec_decode_bytes(v@) =~= out@ + spec_decode_bytes(v@.skip(i as int + 2)));
        }
        i = i + 2;
    }
    proof {
        assert(v@.skip(i as int).len() < 2);
        assert(spec_decode_bytes(v@.skip(i as int)) == Seq::<u8>::empty());
        assert(spec_decode_bytes(v@) =~= out@);
    }
    Ok(out)
}

/// Decodes a hex stream to text, guarantees a trailing line feed, and
/// optionally unwraps multi-line records.
///
/// The decoded text gets a line feed appended only when it does not already
/// end in one, so text decoded from a normalized clean stream keeps exactly
/// one terminator.
pub fn convert_hex_to_text(hex_str: &str, unwrap: bool) -> (r: Result<String, FastaError>)
    ensures
        match r {
            Ok(t) => valid_hex(hex_str@) && t@ == if unwrap {
                spec_unwrap(with_terminator(spec_decode_text(hex_str@)))
            } else {
                with_terminator(spec_decode_text(hex_str@))
            },
            Err(e) => !valid_hex(hex_str@) && (e == FastaError::ParseOddLength <==> hex_str@.len()
                % 2 != 0) && (e == FastaError::ParseInvalidPair <==> hex_str@.len() % 2 == 0),
        },
{
    let bytes = match decode_hex(hex_str) {
        Ok(b) => b,
        Err(e) => {
            return Err(e);
        },
    };
    let mut out: Vec<char> = Vec::new();
    let mut i: usize = 0;
    while i < bytes.len()
        invariant
            i <= bytes@.len(),
            out@ == chars_of_bytes(bytes@.take(i as int)),
        decreases bytes@.len() - i,
    {
        out.push(bytes[i] as char);
        proof {
            assert(chars_of_bytes(bytes@.take(i as int + 1)) =~= chars_of_bytes(
                bytes@.take(i as int),
            ).push(bytes@[i as int] as char));
        }
        i = i + 1;
    }
    proof {
        assert(bytes@.take(bytes@.len() as int) =~= bytes@);
    }
    let needs_nl = if out.len() == 0 {
        true
    } else {
        out[out.len() - 1] != '\n'
    };
    if needs_nl {
        out.push('\n');
    }
    let text = string_from_chars(&out);
    if unwrap {
        Ok(unwrap_fasta(text.as_str()))
    } else {
        Ok(text)
    }
}

/// On a stream of even length, the decoded bytes are exactly the values
/// of the consecutive pairs.
pub proof fn lemma_decode_index(s: Seq<char>)
    requires
        s.len() % 2 == 0,
    ensures
        spec_decode_bytes(s).len() == s.len() / 2,
        forall|k: int|
            0 <= k < s.len() / 2 ==> #[trigger] spec_decode_bytes(s)[k] == pair_val(
                s[2 * k],
                s[2 * k + 1],
            ) as u8,
    decreases s.len(),
{
    if s.len() >= 2 {
        lemma_decode_index(s.skip(2));
        let db = spec_decode_bytes(s);
        let tail = spec_decode_bytes(s.skip(2));
        assert forall|k: int| 0 <= k < s.len() / 2 implies #[trigger] db[k] == pair_val(
            s[2 * k],
            s[2 * k + 1],
        ) as u8 by {
            if k > 0 {
                assert(db[k] == tail[k - 1]);
                assert(s.skip(2)[2 * (k - 1)] == s[2 * k]);
                assert(s.skip(2)[2 * (k - 1) + 1] == s[2 * k + 1]);
            }
        }
    }
}

/// Law: decoding inverts encoding — for any byte sequence, the hex stream
/// the encoder emits is well formed, canonical, and decodes to exactly the
/// bytes that went in. No filtering is involved on this path.
pub proof fn lemma_decode_encode(bytes: Seq<u8>)
    ensures
        valid_hex(spec_encode(bytes)),
        canonical_hex(spec_encode(bytes)),
        spec_decode_bytes(spec_encode(bytes)) == bytes,
    decreases bytes.len(),
{
    if bytes.len() == 0 {
        assert(spec_decode_bytes(spec_encode(bytes)) =~= bytes);
    } else {
        let b = bytes[0];
        let e = spec_encode(bytes);
        lemma_decode_encode(bytes.drop_first());
        assert(0 <= b as int / 16 < 16) by (nonlinear_arith);
        assert(0 <= b as int % 16 < 16);
        assert(is_upper_hex(hex_digit(b as int / 16)));
        assert(is_upper_hex(hex_digit(b as int % 16)));
        assert(hex_val(hex_digit(b as int / 16)) == b as int / 16);
        assert(hex_val(hex_digit(b as int % 16)) == b as int % 16);
        assert(e == encode_byte(b) + spec_encode(bytes.drop_first()));
        assert(e.len() == 2 + spec_encode(bytes.drop_first()).len());
        assert forall|i: int| 0 <= i < e.len() implies is_upper_hex(#[trigger] e[i]) by {
            if i >= 2 {
                assert(e[i] == spec_encode(bytes.drop_first())[i - 2]);
            }
        }
        assert(valid_hex(e));
        assert(pair_val(e[0], e[1]) == (b as int / 16) * 16 + b as int % 16);
        assert((b as int / 16) * 16 + b as int % 16 == b as int) by (nonlinear_arith);
        assert(e.skip(2) =~= spec_encode(bytes.drop_first()));
        assert(spec_decode_bytes(e) =~= seq![b] + bytes.drop_first());
        assert(seq![b] + bytes.drop_first() =~= bytes);
    }
}

} // verus!
