//! Asset paths as parts of a URL.

use vstd::prelude::*;
use vstd::utf8::{decode_utf8, encode_scalar, encode_utf8, encode_utf8_decode_utf8};

use crate::text::chars_of;

verus! {

/// The byte of `#`, the sign that starts the fragment of a URL.
pub const FRAGMENT_SIGN: u8 = 0x23;

/// The upper-case hexadecimal digit for a value below 16.
pub open spec fn hex_digit(value: int) -> char {
    seq!['0', '1', '2', '3', '4', '5', '6', '7', '8', '9', 'A', 'B', 'C', 'D', 'E', 'F'][value]
}

/// `%` and the two hexadecimal digits of `byte`.
pub open spec fn escaped(byte: u8) -> Seq<char> {
    seq!['%', hex_digit(byte as int / 16), hex_digit(byte as int % 16)]
}

/// Whether `byte` is a control character or not ASCII.
pub open spec fn is_control(byte: u8) -> bool {
    byte < 0x20 || byte >= 0x7f
}

/// `bytes` in order, where the control characters, what is not ASCII, and the byte
/// `extra`, if one is given, are escaped.
pub open spec fn encoded_bytes(bytes: Seq<u8>, extra: Option<u8>) -> Seq<char>
    decreases bytes.len(),
{
    if bytes.len() == 0 {
        Seq::empty()
    } else {
        let first = if is_control(bytes[0]) || extra == Some(bytes[0]) {
            escaped(bytes[0])
        } else {
            seq![bytes[0] as char]
        };
        first + encoded_bytes(bytes.drop_first(), extra)
    }
}

/// `path` as a part of a URL that has no fragment: its UTF-8 bytes, where control
/// characters, what is not ASCII, and `#` are escaped.
pub open spec fn url_path(path: Seq<char>) -> Seq<char> {
    encoded_bytes(encode_utf8(path), Some(FRAGMENT_SIGN))
}

/// Calls `percent_encoding::utf8_percent_encode` with the set `CONTROLS` and collects
/// what it yields: the UTF-8 bytes of `text` in order, where each byte of the set
/// (0x00 to 0x1F, and 0x7F) and each byte that is not ASCII is `%` and two upper-case
/// hexadecimal digits, and any other byte stands for itself.
#[verifier::external_body]
fn encode_controls(text: &str) -> (encoded: String)
    ensures
        encoded@ == encoded_bytes(encode_utf8(text@), None),
{
    percent_encoding::utf8_percent_encode(text, percent_encoding::CONTROLS).to_string()
}

/// Calls `percent_encoding::percent_encode_byte`, which returns `%` and the two
/// upper-case hexadecimal digits of the byte.
#[verifier::external_body]
fn encode_byte(byte: u8) -> (encoded: &'static str)
    ensures
        encoded@ == escaped(byte),
{
    percent_encoding::percent_encode_byte(byte)
}

/// `text` with each `#` escaped.
spec fn without_sign(text: Seq<char>) -> Seq<char>
    decreases text.len(),
{
    if text.len() == 0 {
        Seq::empty()
    } else {
        let first = if text[0] == '#' {
            escaped(FRAGMENT_SIGN)
        } else {
            seq![text[0]]
        };
        first + without_sign(text.drop_first())
    }
}

proof fn lemma_without_sign_concat(a: Seq<char>, b: Seq<char>)
    ensures
        without_sign(a + b) == without_sign(a) + without_sign(b),
    decreases a.len(),
{
    if a.len() == 0 {
        assert(a + b =~= b);
        assert(without_sign(a) + without_sign(b) =~= without_sign(b));
    } else {
        lemma_without_sign_concat(a.drop_first(), b);
        assert((a + b).drop_first() =~= a.drop_first() + b);
        assert(without_sign(a + b) =~= without_sign(a) + without_sign(b));
    }
}

proof fn lemma_without_sign_plain(text: Seq<char>)
    requires
        forall|i: int| 0 <= i < text.len() ==> text[i] != '#',
    ensures
        without_sign(text) == text,
    decreases text.len(),
{
    if text.len() > 0 {
        lemma_without_sign_plain(text.drop_first());
    }
    assert(without_sign(text) =~= text);
}

proof fn lemma_encode_then_escape_sign(bytes: Seq<u8>)
    ensures
        without_sign(encoded_bytes(bytes, None)) == encoded_bytes(bytes, Some(FRAGMENT_SIGN)),
    decreases bytes.len(),
{
    if bytes.len() > 0 {
        let byte = bytes[0];
        let first = if is_control(byte) {
            escaped(byte)
        } else {
            seq![byte as char]
        };
        lemma_encode_then_escape_sign(bytes.drop_first());
        lemma_without_sign_concat(first, encoded_bytes(bytes.drop_first(), None));
        if byte == FRAGMENT_SIGN {
            assert(first[0] == '#');
            assert(without_sign(first.drop_first()) =~= Seq::<char>::empty());
            assert(without_sign(first) =~= escaped(byte));
        } else {
            lemma_without_sign_plain(first);
        }
    }
}

/// `path` with control characters, `#` and what is not ASCII in percent-encoding, so
/// that a URL that ends in it has no fragment.
pub fn encode_path(path: &str) -> (encoded: String)
    ensures
        encoded@ == url_path(path@),
{
    let controls = encode_controls(path);
    let chars = chars_of(controls.as_str());
    let sign = encode_byte(FRAGMENT_SIGN);
    let mut encoded = String::new();
    let mut start: usize = 0;
    let mut end: usize = 0;
    assert(chars@.take(0) =~= Seq::empty());
    while end < chars.len()
        invariant
            chars@ == controls@,
            sign@ == escaped(FRAGMENT_SIGN),
            start <= end <= chars@.len(),
            encoded@ == without_sign(chars@.take(start as int)),
            forall|k: int| start <= k < end ==> chars@[k] != '#',
        decreases chars@.len() - end,
    {
        if chars[end] == '#' {
            proof {
                let plain = chars@.subrange(start as int, end as int);
                let one = chars@.subrange(end as int, end + 1);
                lemma_without_sign_plain(plain);
                lemma_without_sign_concat(chars@.take(start as int), plain);
                lemma_without_sign_concat(chars@.take(start as int) + plain, one);
                assert(chars@.take(start as int) + plain + one =~= chars@.take(end + 1));
                assert(without_sign(one.drop_first()) =~= Seq::<char>::empty());
                assert(without_sign(one) =~= escaped(FRAGMENT_SIGN));
            }
            encoded.append(controls.as_str().substring_char(start, end));
            encoded.append(sign);
            start = end + 1;
        }
        end += 1;
    }
    proof {
        let plain = chars@.subrange(start as int, end as int);
        lemma_without_sign_plain(plain);
        lemma_without_sign_concat(chars@.take(start as int), plain);
        assert(chars@.take(start as int) + plain =~= chars@);
        lemma_encode_then_escape_sign(encode_utf8(path@));
    }
    encoded.append(controls.as_str().substring_char(start, end));
    encoded
}

/// A printable ASCII character other than `#`.
pub open spec fn is_plain(c: char) -> bool {
    0x20 <= c as int && (c as int) < 0x7f && c != '#'
}

proof fn lemma_escaped_plain(byte: u8)
    ensures
        forall|i: int| 0 <= i < 3 ==> is_plain(#[trigger] escaped(byte)[i]),
{
    let digits =
        seq!['0', '1', '2', '3', '4', '5', '6', '7', '8', '9', 'A', 'B', 'C', 'D', 'E', 'F'];
    assert forall|value: int| 0 <= value < 16 implies is_plain(#[trigger] digits[value]) by {
        assert(value == 0 || value == 1 || value == 2 || value == 3 || value == 4 || value == 5
            || value == 6 || value == 7 || value == 8 || value == 9 || value == 10 || value == 11
            || value == 12 || value == 13 || value == 14 || value == 15);
    }
    assert(is_plain(digits[byte as int / 16]) && is_plain(digits[byte as int % 16]));
}

proof fn lemma_encoded_bytes_plain(bytes: Seq<u8>)
    ensures
        forall|i: int|
            0 <= i < encoded_bytes(bytes, Some(FRAGMENT_SIGN)).len() ==> is_plain(
                #[trigger] encoded_bytes(bytes, Some(FRAGMENT_SIGN))[i],
            ),
    decreases bytes.len(),
{
    if bytes.len() > 0 {
        let rest = encoded_bytes(bytes.drop_first(), Some(FRAGMENT_SIGN));
        let whole = encoded_bytes(bytes, Some(FRAGMENT_SIGN));
        let first = whole.len() - rest.len();
        lemma_encoded_bytes_plain(bytes.drop_first());
        lemma_escaped_plain(bytes[0]);
        assert forall|i: int| 0 <= i < whole.len() implies is_plain(#[trigger] whole[i]) by {
            if i >= first {
                assert(whole[i] == rest[i - first]);
            } else if is_control(bytes[0]) || bytes[0] == FRAGMENT_SIGN {
                assert(whole[i] == escaped(bytes[0])[i]);
            }
        }
    }
}

/// An encoded path holds printable ASCII characters only, and no `#`.
pub proof fn law_url_path_is_plain(path: Seq<char>)
    ensures
        forall|i: int| 0 <= i < url_path(path).len() ==> is_plain(#[trigger] url_path(path)[i]),
{
    lemma_encoded_bytes_plain(encode_utf8(path));
}

proof fn lemma_plain_bytes_stay(bytes: Seq<u8>)
    requires
        forall|i: int| 0 <= i < bytes.len() ==> !is_control(bytes[i]) && bytes[i] != FRAGMENT_SIGN,
    ensures
        encoded_bytes(bytes, Some(FRAGMENT_SIGN)) == bytes.map_values(|byte: u8| byte as char),
    decreases bytes.len(),
{
    if bytes.len() > 0 {
        lemma_plain_bytes_stay(bytes.drop_first());
    }
    assert(encoded_bytes(bytes, Some(FRAGMENT_SIGN)) =~= bytes.map_values(
        |byte: u8| byte as char,
    ));
}

/// A path of printable ASCII characters without `#` is its own encoding.
pub proof fn law_url_path_keeps_plain_paths(path: Seq<char>)
    requires
        forall|i: int| 0 <= i < path.len() ==> is_plain(path[i]),
    ensures
        url_path(path) == path,
{
    vstd::utf8::is_ascii_chars_encode_utf8(path);
    lemma_plain_bytes_stay(encode_utf8(path));
    assert(url_path(path) =~= path);
}

/// Encoding a path that is encoded already changes nothing.
pub proof fn law_url_path_is_stable(path: Seq<char>)
    ensures
        url_path(url_path(path)) == url_path(path),
{
    law_url_path_is_plain(path);
    law_url_path_keeps_plain_paths(url_path(path));
}

/// The value of an upper-case hexadecimal digit, and -1 for any other character.
pub open spec fn hex_value(digit: char) -> int {
    if '0' <= digit <= '9' {
        digit as int - '0' as int
    } else if 'A' <= digit <= 'F' {
        digit as int - 'A' as int + 10
    } else {
        -1
    }
}

/// The bytes that `text`, which is ASCII, stands for where each `%` with two hexadecimal
/// digits behind it stands for the byte of that value.
pub open spec fn percent_decoded(text: Seq<char>) -> Seq<u8>
    decreases text.len(),
{
    if text.len() == 0 {
        Seq::empty()
    } else if text[0] == '%' && text.len() >= 3 && hex_value(text[1]) >= 0 && hex_value(text[2])
        >= 0 {
        seq![(hex_value(text[1]) * 16 + hex_value(text[2])) as u8] + percent_decoded(text.skip(3))
    } else {
        seq![text[0] as u8] + percent_decoded(text.drop_first())
    }
}

proof fn lemma_escaped_value(byte: u8)
    ensures
        escaped(byte).len() == 3,
        escaped(byte)[0] == '%',
        hex_value(escaped(byte)[1]) >= 0,
        hex_value(escaped(byte)[2]) >= 0,
        hex_value(escaped(byte)[1]) * 16 + hex_value(escaped(byte)[2]) == byte,
{
    assert forall|value: int| 0 <= value < 16 implies hex_value(#[trigger] hex_digit(value))
        == value by {
        assert(value == 0 || value == 1 || value == 2 || value == 3 || value == 4 || value == 5
            || value == 6 || value == 7 || value == 8 || value == 9 || value == 10 || value == 11
            || value == 12 || value == 13 || value == 14 || value == 15);
    }
    assert(hex_value(hex_digit(byte as int / 16)) == byte as int / 16);
    assert(hex_value(hex_digit(byte as int % 16)) == byte as int % 16);
}

proof fn lemma_decoded_bytes(bytes: Seq<u8>)
    requires
        forall|i: int| 0 <= i < bytes.len() ==> bytes[i] != 0x25,
    ensures
        percent_decoded(encoded_bytes(bytes, Some(FRAGMENT_SIGN))) == bytes,
    decreases bytes.len(),
{
    if bytes.len() > 0 {
        let byte = bytes[0];
        let rest = encoded_bytes(bytes.drop_first(), Some(FRAGMENT_SIGN));
        let whole = encoded_bytes(bytes, Some(FRAGMENT_SIGN));
        lemma_decoded_bytes(bytes.drop_first());
        if is_control(byte) || byte == FRAGMENT_SIGN {
            lemma_escaped_value(byte);
            assert(whole =~= escaped(byte) + rest);
            assert(whole[1] == escaped(byte)[1] && whole[2] == escaped(byte)[2]);
            assert(whole.skip(3) =~= rest);
        } else {
            assert(whole =~= seq![byte as char] + rest);
            assert(whole[0] == byte as char);
            assert(whole[0] != '%');
            assert(whole.drop_first() =~= rest);
        }
        assert(seq![byte] + bytes.drop_first() =~= bytes);
    } else {
        assert(percent_decoded(encoded_bytes(bytes, Some(FRAGMENT_SIGN))) =~= bytes);
    }
}

proof fn lemma_bytes_of_one_char(c: char)
    ensures
        (c as u32) < 0x80 ==> encode_scalar(c as u32) == seq![c as u8],
        (c as u32) >= 0x80 ==> forall|i: int|
            0 <= i < encode_scalar(c as u32).len() ==> (#[trigger] encode_scalar(c as u32)[i])
                >= 0x80,
        c != '%' ==> !encode_scalar(c as u32).contains(0x25),
{
    let scalar = c as u32;
    if scalar < 0x80 {
        assert((scalar & 0x7F) as u8 == scalar as u8) by (bit_vector)
            requires
                scalar < 0x80,
        ;
        assert(encode_scalar(scalar) =~= seq![c as u8]);
    } else {
        assert(forall|x: u8| #![auto] 0xC0u8 | x >= 0x80) by (bit_vector);
        assert(forall|x: u8| #![auto] 0xE0u8 | x >= 0x80) by (bit_vector);
        assert(forall|x: u8| #![auto] 0xF0u8 | x >= 0x80) by (bit_vector);
        assert(forall|x: u8| #![auto] 0x80u8 | x >= 0x80) by (bit_vector);
    }
}

proof fn lemma_bytes_without_percent(path: Seq<char>)
    requires
        !path.contains('%'),
    ensures
        forall|i: int| 0 <= i < encode_utf8(path).len() ==> encode_utf8(path)[i] != 0x25,
    decreases path.len(),
{
    if path.len() > 0 {
        let c = path[0];
        let rest = path.drop_first();
        assert(path.contains(c));
        assert(!rest.contains('%')) by {
            if rest.contains('%') {
                let i = choose|i: int| 0 <= i < rest.len() && rest[i] == '%';
                assert(path[i + 1] == '%');
            }
        }
        lemma_bytes_without_percent(rest);
        lemma_bytes_of_one_char(c);
        let first = encode_scalar(c as u32);
        assert forall|i: int| 0 <= i < encode_utf8(path).len() implies encode_utf8(path)[i]
            != 0x25 by {
            if i < first.len() {
                assert(encode_utf8(path)[i] == first[i]);
                assert(first.contains(first[i]));
            } else {
                assert(encode_utf8(path)[i] == encode_utf8(rest)[i - first.len()]);
            }
        }
    }
}

/// A path without `%` is what its encoding stands for.
pub proof fn law_url_path_decodes(path: Seq<char>)
    requires
        !path.contains('%'),
    ensures
        decode_utf8(percent_decoded(url_path(path))) == path,
{
    lemma_bytes_without_percent(path);
    lemma_decoded_bytes(encode_utf8(path));
    encode_utf8_decode_utf8(path);
}

/// Decoding an encoded path gives the path back: a path without `%`, since `%` itself is
/// not encoded.
pub proof fn law_decoding_gives_the_path_back(path: &str, encoded: String)
    requires
        !path@.contains('%'),
        call_ensures(encode_path, (path,), encoded),
    ensures
        decode_utf8(percent_decoded(encoded@)) == path@,
{
    law_url_path_decodes(path@);
}

proof fn lemma_utf8_concat(a: Seq<char>, b: Seq<char>)
    ensures
        encode_utf8(a + b) == encode_utf8(a) + encode_utf8(b),
    decreases a.len(),
{
    if a.len() == 0 {
        assert(a + b =~= b);
        assert(encode_utf8(a) + encode_utf8(b) =~= encode_utf8(b));
    } else {
        lemma_utf8_concat(a.drop_first(), b);
        assert((a + b).drop_first() =~= a.drop_first() + b);
        assert(encode_utf8(a + b) =~= encode_utf8(a) + encode_utf8(b));
    }
}

proof fn lemma_encoded_concat(a: Seq<u8>, b: Seq<u8>, extra: Option<u8>)
    ensures
        encoded_bytes(a + b, extra) == encoded_bytes(a, extra) + encoded_bytes(b, extra),
    decreases a.len(),
{
    if a.len() == 0 {
        assert(a + b =~= b);
        assert(encoded_bytes(a, extra) + encoded_bytes(b, extra) =~= encoded_bytes(b, extra));
    } else {
        lemma_encoded_concat(a.drop_first(), b, extra);
        assert((a + b).drop_first() =~= a.drop_first() + b);
        assert(encoded_bytes(a + b, extra) =~= encoded_bytes(a, extra) + encoded_bytes(b, extra));
    }
}

/// What is encoded piece by piece is encoded as a whole.
pub proof fn law_encoding_goes_piece_by_piece(
    front: &str,
    back: &str,
    whole: &str,
    encoded_front: String,
    encoded_back: String,
    encoded_whole: String,
)
    requires
        whole@ == front@ + back@,
        call_ensures(encode_path, (front,), encoded_front),
        call_ensures(encode_path, (back,), encoded_back),
        call_ensures(encode_path, (whole,), encoded_whole),
    ensures
        encoded_whole@ == encoded_front@ + encoded_back@,
{
    lemma_utf8_concat(front@, back@);
    lemma_encoded_concat(encode_utf8(front@), encode_utf8(back@), Some(FRAGMENT_SIGN));
}

/// An encoded path holds printable ASCII characters only, and no `#`; a path that does so
/// already, and a `%` may be among its characters, stays as it is.
pub proof fn law_encoding_leaves_plain_paths(path: &str, encoded: String)
    requires
        call_ensures(encode_path, (path,), encoded),
    ensures
        forall|i: int|
            0 <= i < encoded@.len() ==> ' ' <= #[trigger] encoded@[i] <= '~' && encoded@[i] != '#',
        (forall|i: int|
            0 <= i < path@.len() ==> ' ' <= #[trigger] path@[i] <= '~' && path@[i] != '#')
            ==> encoded@ == path@,
{
    law_url_path_is_plain(path@);
    assert forall|i: int| 0 <= i < encoded@.len() implies ' ' <= #[trigger] encoded@[i] <= '~'
        && encoded@[i] != '#' by {
        assert(is_plain(url_path(path@)[i]));
    }
    if forall|i: int|
        0 <= i < path@.len() ==> ' ' <= #[trigger] path@[i] <= '~' && path@[i] != '#' {
        law_url_path_keeps_plain_paths(path@);
    }
}

} // verus!
