use vstd::prelude::*;
use vstd::utf8::*;
use percent_encoding::{percent_decode_str, utf8_percent_encode, NON_ALPHANUMERIC};

verus! {

broadcast use vstd::utf8::group_utf8_lib;

/// ASCII letters and digits: the only bytes that percent-encoding with
/// `NON_ALPHANUMERIC` leaves as they are.
pub open spec fn is_ascii_alphanumeric(b: u8) -> bool {
    (48 <= b <= 57) || (65 <= b <= 90) || (97 <= b <= 122)
}

/// The upper-case hexadecimal digit for `n`, which is below sixteen.
pub open spec fn hex_digit(n: u8) -> char {
    seq!['0', '1', '2', '3', '4', '5', '6', '7', '8', '9', 'A', 'B', 'C', 'D', 'E', 'F'][n as int]
}

/// What percent-encoding with `NON_ALPHANUMERIC` writes for one byte: the
/// byte itself when it is an ASCII letter or digit, else `%` and its two
/// upper-case hexadecimal digits.
pub open spec fn percent_encoded_byte(b: u8) -> Seq<char> {
    if is_ascii_alphanumeric(b) {
        seq![b as char]
    } else {
        seq!['%', hex_digit(b / 16), hex_digit(b % 16)]
    }
}

/// The percent-encoding of `bytes` with `NON_ALPHANUMERIC`.
pub open spec fn percent_encoded(bytes: Seq<u8>) -> Seq<char>
    decreases bytes.len(),
{
    if bytes.len() == 0 {
        Seq::empty()
    } else {
        percent_encoded_byte(bytes[0]) + percent_encoded(bytes.drop_first())
    }
}

/// The value of a hexadecimal digit of either case, if `b` is one.
pub open spec fn hex_value(b: u8) -> Option<u8> {
    if 48 <= b <= 57 {
        Some((b - 48) as u8)
    } else if 65 <= b <= 70 {
        Some((b - 55) as u8)
    } else if 97 <= b <= 102 {
        Some((b - 87) as u8)
    } else {
        None
    }
}

/// Percent-decoding: every `%` that is followed by two hexadecimal digits
/// stands, with them, for the byte they give; every other byte stands for
/// itself.
pub open spec fn percent_decoded(bytes: Seq<u8>) -> Seq<u8>
    decreases bytes.len(),
{
    if bytes.len() == 0 {
        Seq::empty()
    } else if bytes[0] == 37 && bytes.len() >= 3 && hex_value(bytes[1]) is Some
        && hex_value(bytes[2]) is Some {
        seq![(hex_value(bytes[1])->0 * 16 + hex_value(bytes[2])->0) as u8]
            + percent_decoded(bytes.skip(3))
    } else {
        seq![bytes[0]] + percent_decoded(bytes.drop_first())
    }
}

/// What `String::from_utf8_lossy` gives for `bytes`: their UTF-8 decoding,
/// with each invalid sequence replaced by U+FFFD.
pub uninterp spec fn utf8_lossy(bytes: Seq<u8>) -> Seq<char>;

/// Calls `percent_encoding::utf8_percent_encode` with `NON_ALPHANUMERIC` and
/// collects the result. Its source encodes every byte of the UTF-8 encoding
/// of `s` that is not an ASCII letter or digit as `%` and two upper-case
/// hexadecimal digits, and keeps the others.
#[verifier::external_body]
fn utf8_percent_encode_all(s: &str) -> (res: String)
    ensures
        res@ == percent_encoded(encode_utf8(s@)),
{
    utf8_percent_encode(s, NON_ALPHANUMERIC).to_string()
}

/// Calls `percent_encoding::percent_decode_str` and collects the decoded
/// bytes. Its source turns `%` followed by two hexadecimal digits into the
/// byte they give, and keeps every other byte.
#[verifier::external_body]
fn percent_decode_bytes(s: &str) -> (res: Vec<u8>)
    ensures
        res@ == percent_decoded(encode_utf8(s@)),
{
    percent_decode_str(s).collect()
}

/// Calls `String::from_utf8_lossy`. Its result is named `utf8_lossy` of the
/// bytes; where they are valid UTF-8 it is their decoding, as the standard
/// library documents. What it gives for invalid sequences is not stated.
#[verifier::external_body]
fn from_utf8_lossy(bytes: &[u8]) -> (res: String)
    ensures
        res@ == utf8_lossy(bytes@),
        valid_utf8(bytes@) ==> res@ == decode_utf8(bytes@),
{
    String::from_utf8_lossy(bytes).into_owned()
}

/// The text that a request carries for a file name that was encoded as
/// `encode_file_name` encodes it.
pub open spec fn encoded_name(name: Seq<char>) -> Seq<char> {
    percent_encoded(encode_utf8(name))
}

/// The file name that `decode_file_name` reads out of `raw`.
pub open spec fn decoded_name(raw: Seq<char>) -> Seq<char> {
    let bytes = percent_decoded(encode_utf8(raw));
    if valid_utf8(bytes) {
        decode_utf8(bytes)
    } else {
        utf8_lossy(bytes)
    }
}

/// Percent-encodes the UTF-8 bytes of a file name for use in a link, so
/// that only ASCII letters, digits and `%` escapes remain.
pub fn encode_file_name(name: &str) -> (res: String)
    ensures
        res@ == encoded_name(name@),
{
    utf8_percent_encode_all(name)
}

/// Percent-decodes a file name taken from a request path, reading the
/// decoded bytes as UTF-8 and replacing invalid sequences.
pub fn decode_file_name(raw: &str) -> (res: String)
    ensures
        res@ == decoded_name(raw@),
{
    let bytes = percent_decode_bytes(raw);
    from_utf8_lossy(bytes.as_slice())
}


/// The bytes of a text that holds only ASCII characters.
pub open spec fn ascii_bytes(cs: Seq<char>) -> Seq<u8> {
    Seq::new(cs.len(), |i: int| cs[i] as u8)
}

proof fn lemma_hex_digit(n: u8)
    requires
        n < 16,
    ensures
        '0' <= hex_digit(n) <= '\u{7f}',
        is_upper_hex(hex_digit(n)),
        hex_value(hex_digit(n) as u8) == Some(n),
        hex_digit(n) != '%',
{
}

proof fn lemma_encoded_byte_ascii(b: u8)
    ensures
        is_ascii_chars(percent_encoded_byte(b)),
{
    if !is_ascii_alphanumeric(b) {
        lemma_hex_digit(b / 16);
        lemma_hex_digit(b % 16);
    }
}

proof fn lemma_encoded_ascii(bytes: Seq<u8>)
    ensures
        is_ascii_chars(percent_encoded(bytes)),
    decreases bytes.len(),
{
    if bytes.len() > 0 {
        lemma_encoded_byte_ascii(bytes[0]);
        lemma_encoded_ascii(bytes.drop_first());
        is_ascii_chars_concat(
            percent_encoded(bytes),
            percent_encoded_byte(bytes[0]),
            percent_encoded(bytes.drop_first()),
        );
    }
}

proof fn lemma_decode_encoded(bytes: Seq<u8>)
    ensures
        percent_decoded(ascii_bytes(percent_encoded(bytes))) == bytes,
    decreases bytes.len(),
{
    if bytes.len() == 0 {
        assert(ascii_bytes(percent_encoded(bytes)) =~= Seq::<u8>::empty());
    } else {
        let b: u8 = bytes[0];
        let chunk = ascii_bytes(percent_encoded_byte(b));
        let rest = ascii_bytes(percent_encoded(bytes.drop_first()));
        let all = ascii_bytes(percent_encoded(bytes));
        assert(all =~= chunk + rest);
        lemma_decode_encoded(bytes.drop_first());
        if is_ascii_alphanumeric(b) {
            assert(all[0] == b);
            assert(all.drop_first() =~= rest);
            assert(percent_decoded(all) =~= seq![b] + bytes.drop_first());
        } else {
            lemma_hex_digit(b / 16);
            lemma_hex_digit(b % 16);
            assert(all[0] == 37);
            assert(all.skip(3) =~= rest);
            assert(percent_decoded(all) =~= seq![b] + bytes.drop_first());
        }
        assert(seq![b] + bytes.drop_first() =~= bytes);
    }
}

/// Decoding a link's file name gives back the name it was made from: for
/// every file name, `decode_file_name` of what `encode_file_name` writes
/// for it is that name.
pub proof fn law_decode_inverts_encode(name: Seq<char>)
    ensures
        decoded_name(encoded_name(name)) == name,
{
    let bytes = encode_utf8(name);
    let e = percent_encoded(bytes);
    lemma_encoded_ascii(bytes);
    is_ascii_chars_encode_utf8(e);
    assert(encode_utf8(e) =~= ascii_bytes(e));
    lemma_decode_encoded(bytes);
    encode_utf8_valid_utf8(name);
    encode_utf8_decode_utf8(name);
}


/// An ASCII letter or digit.
pub open spec fn is_alphanumeric_char(c: char) -> bool {
    ('0' <= c <= '9') || ('A' <= c <= 'Z') || ('a' <= c <= 'z')
}

/// A digit or an upper-case letter from `A` to `F`.
pub open spec fn is_upper_hex(c: char) -> bool {
    ('0' <= c <= '9') || ('A' <= c <= 'F')
}

/// Text made only of ASCII letters, digits, and `%` escapes of two
/// upper-case hexadecimal digits each.
pub open spec fn only_escapes(s: Seq<char>) -> bool
    decreases s.len(),
{
    if s.len() == 0 {
        true
    } else if is_alphanumeric_char(s[0]) {
        only_escapes(s.drop_first())
    } else {
        &&& s[0] == '%'
        &&& s.len() >= 3
        &&& is_upper_hex(s[1])
        &&& is_upper_hex(s[2])
        &&& only_escapes(s.skip(3))
    }
}

proof fn lemma_encoded_only_escapes(bytes: Seq<u8>)
    ensures
        only_escapes(percent_encoded(bytes)),
    decreases bytes.len(),
{
    if bytes.len() > 0 {
        let b: u8 = bytes[0];
        let chunk = percent_encoded_byte(b);
        let rest = percent_encoded(bytes.drop_first());
        let all = percent_encoded(bytes);
        assert(all == chunk + rest);
        lemma_encoded_only_escapes(bytes.drop_first());
        if is_ascii_alphanumeric(b) {
            assert(all.drop_first() =~= rest);
        } else {
            lemma_hex_digit(b / 16);
            lemma_hex_digit(b % 16);
            assert(all.skip(3) =~= rest);
        }
    }
}

/// The name that a link carries is made only of ASCII letters, digits and
/// upper-case `%` escapes, and percent-decoding it gives valid UTF-8 whose
/// strict decoding is the name itself.
pub proof fn law_encoded_name_is_escapes(name: Seq<char>)
    ensures
        only_escapes(encoded_name(name)),
        valid_utf8(percent_decoded(encode_utf8(encoded_name(name)))),
        decode_utf8(percent_decoded(encode_utf8(encoded_name(name)))) == name,
{
    let bytes = encode_utf8(name);
    let e = percent_encoded(bytes);
    lemma_encoded_only_escapes(bytes);
    lemma_encoded_ascii(bytes);
    is_ascii_chars_encode_utf8(e);
    assert(encode_utf8(e) =~= ascii_bytes(e));
    lemma_decode_encoded(bytes);
    encode_utf8_valid_utf8(name);
    encode_utf8_decode_utf8(name);
}

}
