//! Inputs as they are given: encoded as URL-safe base64, percent-encoded, or
//! plain.

use vstd::prelude::*;
use vstd::string::*;
use vstd::utf8::{
    decode_utf8, encode_utf8, encode_utf8_decode_utf8, encode_utf8_valid_utf8, valid_utf8,
};

verus! {

/// What the `base64` crate decodes with its URL-safe alphabet and padding; `None`
/// for what it refuses.
pub uninterp spec fn url_safe_base64(text: Seq<u8>) -> Option<Seq<u8>>;

/// The view of decoded bytes.
pub open spec fn bytes_view(r: Option<Vec<u8>>) -> Option<Seq<u8>> {
    match r {
        Some(bytes) => Some(bytes@),
        None => None,
    }
}

/// The view of a text that may be there.
pub open spec fn text_view(r: Option<String>) -> Option<Seq<char>> {
    match r {
        Some(text) => Some(text@),
        None => None,
    }
}

/// Calls `decode` of `base64::engine::general_purpose::URL_SAFE`. Claimed: the
/// bytes, or that there are none, are a function of the text alone.
#[verifier::external_body]
fn decode_url_safe(text: &[u8]) -> (r: Option<Vec<u8>>)
    ensures
        bytes_view(r) == url_safe_base64(text@),
{
    base64::Engine::decode(&base64::engine::general_purpose::URL_SAFE, text).ok()
}

/// The text that bytes are in UTF-8.
pub open spec fn utf8_text(bytes: Seq<u8>) -> Option<Seq<char>> {
    if valid_utf8(bytes) {
        Some(decode_utf8(bytes))
    } else {
        None
    }
}

/// Calls `String::from_utf8`. Claimed: it gives the text that the bytes encode in
/// UTF-8, and none for bytes that are no UTF-8.
#[verifier::external_body]
fn text_from_utf8(bytes: Vec<u8>) -> (r: Option<String>)
    ensures
        text_view(r) == utf8_text(bytes@),
{
    String::from_utf8(bytes).ok()
}

/// The percent sign.
pub const PERCENT: u8 = 0x25;

/// Value of a hexadecimal digit in either case.
pub open spec fn hex_value(digit: u8) -> Option<u8> {
    if 0x30 <= digit <= 0x39 {
        Some((digit - 0x30) as u8)
    } else if 0x61 <= digit <= 0x66 {
        Some((digit - 0x61 + 10) as u8)
    } else if 0x41 <= digit <= 0x46 {
        Some((digit - 0x41 + 10) as u8)
    } else {
        None
    }
}

/// Bytes with every percent sign and its two hexadecimal digits replaced by the
/// byte that they write; nothing if a percent sign goes without its digits.
pub open spec fn unescaped(bytes: Seq<u8>) -> Option<Seq<u8>>
    decreases bytes.len(),
{
    if bytes.len() == 0 {
        Some(Seq::empty())
    } else if bytes[0] == PERCENT {
        if bytes.len() < 3 {
            None
        } else {
            match (
                hex_value(bytes[1]),
                hex_value(bytes[2]),
                unescaped(bytes.subrange(3, bytes.len() as int)),
            ) {
                (Some(high), Some(low), Some(rest)) => Some(
                    seq![(16 * high + low) as u8] + rest,
                ),
                _ => None,
            }
        }
    } else {
        match unescaped(bytes.drop_first()) {
            Some(rest) => Some(seq![bytes[0]] + rest),
            None => None,
        }
    }
}

/// What a percent-encoded text stands for; nothing for a text without a percent
/// sign, with a broken escape, or that stands for no UTF-8.
pub open spec fn percent_decoded(text: Seq<char>) -> Option<Seq<char>> {
    let bytes = encode_utf8(text);
    match unescaped(bytes) {
        Some(decoded) => if bytes.contains(PERCENT) {
            utf8_text(decoded)
        } else {
            None
        },
        None => None,
    }
}

/// What an input stands for, given what it decodes to as base64: that text, if it
/// is one; else, where it is no base64, its percent-decoded text; else itself.
pub open spec fn input_uri(input: Seq<char>, base64: Option<Seq<u8>>) -> Seq<char> {
    match base64 {
        Some(data) => match utf8_text(data) {
            Some(text) => text,
            None => input,
        },
        None => match percent_decoded(input) {
            Some(text) => text,
            None => input,
        },
    }
}

/// What an input stands for.
pub open spec fn stands_for(input: Seq<char>) -> Seq<char> {
    input_uri(input, url_safe_base64(encode_utf8(input)))
}

/// Reads a hexadecimal digit in either case.
pub fn decode_hex(value: u8) -> (r: Option<u8>)
    ensures
        r == hex_value(value),
        r matches Some(v) ==> v < 16,
{
    if 0x30 <= value && value <= 0x39 {
        Some(value - 0x30)
    } else if 0x61 <= value && value <= 0x66 {
        Some(value - 0x61 + 10)
    } else if 0x41 <= value && value <= 0x46 {
        Some(value - 0x41 + 10)
    } else {
        None
    }
}

/// Decodes a percent-encoded text; `None` for a text without a percent sign, with
/// a broken escape, or that stands for no UTF-8.
pub fn decode_percent_encoded(value: &str) -> (r: Option<String>)
    ensures
        text_view(r) == percent_decoded(value@),
{
    let bytes = value.as_bytes();
    let length = bytes.len();
    let mut decoded: Vec<u8> = Vec::new();
    let mut index: usize = 0;
    let mut changed = false;
    assert(bytes@.subrange(0, length as int) =~= bytes@);
    proof {
        if unescaped(bytes@) is Some {
            assert(decoded@ + unescaped(bytes@)->0 =~= unescaped(bytes@)->0);
        }
    }
    while index < length
        invariant
            length == bytes@.len(),
            bytes@ == encode_utf8(value@),
            index <= length,
            changed <==> exists|i: int| 0 <= i < index && bytes@[i] == PERCENT,
            unescaped(bytes@) == (match unescaped(bytes@.subrange(index as int, length as int)) {
                Some(rest) => Some(decoded@ + rest),
                None => None,
            }),
        decreases length - index,
    {
        let ghost rest = bytes@.subrange(index as int, length as int);
        let ghost before = decoded@;
        assert(rest[0] == bytes@[index as int]);
        if bytes[index] == PERCENT {
            if length - index < 3 {
                return None;
            }
            assert(rest[1] == bytes@[index + 1] && rest[2] == bytes@[index + 2]);
            let (high, low) = match (decode_hex(bytes[index + 1]), decode_hex(bytes[index + 2])) {
                (Some(high), Some(low)) => (high, low),
                _ => {
                    return None;
                },
            };
            decoded.push(16 * high + low);
            assert(rest.subrange(3, rest.len() as int) =~= bytes@.subrange(
                index + 3,
                length as int,
            ));
            proof {
                assert(bytes@[index as int] == PERCENT);
                if unescaped(rest) is Some {
                    let tail = unescaped(bytes@.subrange(index + 3, length as int))->0;
                    assert(before + (seq![(16 * high + low) as u8] + tail) =~= decoded@ + tail);
                }
            }
            index = index + 3;
            changed = true;
        } else {
            decoded.push(bytes[index]);
            assert(rest.drop_first() =~= bytes@.subrange(index + 1, length as int));
            proof {
                if unescaped(rest) is Some {
                    let tail = unescaped(bytes@.subrange(index + 1, length as int))->0;
                    assert(before + (seq![rest[0]] + tail) =~= decoded@ + tail);
                }
            }
            index = index + 1;
        }
    }
    assert(bytes@.subrange(index as int, length as int) =~= Seq::empty());
    assert(decoded@ + Seq::empty() =~= decoded@);
    proof {
        assert(bytes@.contains(PERCENT) <==> changed);
    }
    if !changed {
        return None;
    }
    text_from_utf8(decoded)
}

/// Decides what an input stands for, given what it decodes to as base64.
pub fn choose_input(input: &str, base64: Option<Vec<u8>>) -> (r: String)
    ensures
        r@ == input_uri(input@, bytes_view(base64)),
{
    let decoded = match base64 {
        Some(data) => text_from_utf8(data),
        None => decode_percent_encoded(input),
    };
    match decoded {
        Some(text) => text,
        None => input.to_owned(),
    }
}

/// What an input stands for: URL-safe base64 of a text, a percent-encoded text,
/// or itself.
pub fn parse_input_file(input_file: &str) -> (r: String)
    ensures
        r@ == stands_for(input_file@),
{
    choose_input(input_file, decode_url_safe(input_file.as_bytes()))
}

/// Whether the three bytes from `at` on write `byte` as an escape.
pub open spec fn escape_at(escape: Seq<u8>, at: int, byte: u8) -> bool {
    &&& escape[at] == PERCENT
    &&& hex_value(escape[at + 1]) == Some((byte / 16) as u8)
    &&& hex_value(escape[at + 2]) == Some((byte % 16) as u8)
}

/// Whether `escape` writes every one of the bytes as an escape.
pub open spec fn is_escape(bytes: Seq<u8>, escape: Seq<u8>) -> bool {
    &&& escape.len() == 3 * bytes.len()
    &&& forall|k: int| 0 <= k < bytes.len() ==> escape_at(escape, 3 * k, #[trigger] bytes[k])
}

/// Percent-decoding undoes percent-encoding: whatever bytes are written as
/// escapes, in either case of the digits, are read back.
pub proof fn escapes_are_undone(bytes: Seq<u8>, escape: Seq<u8>)
    requires
        is_escape(bytes, escape),
    ensures
        unescaped(escape) == Some(bytes),
    decreases bytes.len(),
{
    if bytes.len() == 0 {
        assert(bytes =~= Seq::empty());
    } else {
        let rest = bytes.drop_first();
        let tail = escape.subrange(3, escape.len() as int);
        assert forall|k: int| 0 <= k < rest.len() implies escape_at(
            tail,
            3 * k,
            #[trigger] rest[k],
        ) by {
            assert(bytes[k + 1] == rest[k]);
            assert(escape_at(escape, 3 * (k + 1), bytes[k + 1]));
        }
        escapes_are_undone(rest, tail);
        assert(bytes[0] == 16 * (bytes[0] / 16) + bytes[0] % 16);
        assert(escape_at(escape, 0, bytes[0]));
        assert(seq![bytes[0]] + rest =~= bytes);
    }
}

/// A text without a percent sign is no percent-encoded text, so a plain path that
/// is no base64 either is taken as it is.
pub proof fn plain_inputs_stay(input: Seq<char>)
    requires
        !encode_utf8(input).contains(PERCENT),
    ensures
        percent_decoded(input) is None,
        input_uri(input, None) == input,
{
}

/// Hexadecimal digits count from zero to fifteen: `0` is zero, each digit is one more
/// than the digit before it, `a` follows `9`, and capital letters are worth what
/// small ones are. Nothing else is a digit.
pub proof fn hex_digits_count_up(digit: u8)
    ensures
        hex_value(0x30) == Some(0u8),
        0x30 < digit <= 0x39 ==> hex_value(digit)->0 == hex_value((digit - 1) as u8)->0 + 1,
        hex_value(0x61)->0 == hex_value(0x39)->0 + 1,
        0x61 < digit <= 0x66 ==> hex_value(digit)->0 == hex_value((digit - 1) as u8)->0 + 1,
        0x41 <= digit <= 0x46 ==> hex_value(digit) == hex_value((digit + 0x20) as u8),
        hex_value(digit) is Some <==> 0x30 <= digit <= 0x39 || 0x61 <= digit <= 0x66 || 0x41
            <= digit <= 0x46,
{
}

/// Texts without escapes stand for themselves, and what is written before and after
/// is read before and after: where both parts can be read by themselves, the whole
/// stands for what they stand for, one behind the other. A percent sign with too
/// little behind it, or something that is no digit, cannot be read.
pub proof fn escapes_are_read_in_order(front: Seq<u8>, back: Seq<u8>)
    ensures
        unescaped(front) is Some && unescaped(back) is Some ==> unescaped(front + back) == Some(
            unescaped(front)->0 + unescaped(back)->0,
        ),
        !front.contains(PERCENT) ==> unescaped(front) == Some(front),
        front.len() > 0 && front[0] == PERCENT && front.len() < 3 ==> unescaped(front) is None,
        front.len() >= 3 && front[0] == PERCENT && (hex_value(front[1]) is None || hex_value(
            front[2],
        ) is None) ==> unescaped(front) is None,
    decreases front.len(),
{
    let whole = front + back;
    if front.len() == 0 {
        assert(whole =~= back);
        assert(front =~= Seq::empty());
        if unescaped(back) is Some {
            assert(Seq::<u8>::empty() + unescaped(back)->0 =~= unescaped(back)->0);
        }
    } else if front[0] == PERCENT {
        assert(front.contains(PERCENT));
        if front.len() >= 3 {
            let rest = front.subrange(3, front.len() as int);
            escapes_are_read_in_order(rest, back);
            assert(whole.subrange(3, whole.len() as int) =~= rest + back);
            if unescaped(front) is Some && unescaped(back) is Some {
                let byte = seq![(16 * hex_value(front[1])->0 + hex_value(front[2])->0) as u8];
                assert(byte + (unescaped(rest)->0 + unescaped(back)->0) =~= (byte + unescaped(
                    rest,
                )->0) + unescaped(back)->0);
            }
        }
    } else {
        let rest = front.drop_first();
        escapes_are_read_in_order(rest, back);
        assert(whole.drop_first() =~= rest + back);
        if unescaped(front) is Some && unescaped(back) is Some {
            assert(seq![front[0]] + (unescaped(rest)->0 + unescaped(back)->0) =~= (seq![front[0]]
                + unescaped(rest)->0) + unescaped(back)->0);
        }
        if !front.contains(PERCENT) {
            assert forall|k: int| 0 <= k < rest.len() implies rest[k] != PERCENT by {
                assert(front[k + 1] == rest[k]);
            }
            assert(seq![front[0]] + rest =~= front);
        }
    }
}

/// Texts come back however they are given: a text whose bytes base64 decodes to, or
/// else whose bytes are written as escapes, is what the input stands for. Base64
/// that decodes to no text leaves the input as it is, escapes or not.
pub proof fn texts_come_back(input: Seq<char>, text: Seq<char>, data: Seq<u8>)
    ensures
        input_uri(input, Some(encode_utf8(text))) == text,
        text.len() > 0 && is_escape(encode_utf8(text), encode_utf8(input)) ==> percent_decoded(input)
            == Some(text) && input_uri(input, None) == text,
        !valid_utf8(data) ==> input_uri(input, Some(data)) == input,
{
    encode_utf8_valid_utf8(text);
    encode_utf8_decode_utf8(text);
    if text.len() > 0 && is_escape(encode_utf8(text), encode_utf8(input)) {
        escapes_are_undone(encode_utf8(text), encode_utf8(input));
        assert(encode_utf8(text).len() > 0) by {
            vstd::utf8::encode_utf8_first_scalar(text);
        }
        assert(escape_at(encode_utf8(input), 0, encode_utf8(text)[0]));
        assert(encode_utf8(input)[0] == PERCENT);
        assert(encode_utf8(input).contains(PERCENT));
    }
}

/// An input is taken for base64 first, of its own bytes: where these decode to those
/// of a text, it stands for that text; where they do not decode and the input is
/// escapes of a text's bytes, for that text; and a plain path that is no base64
/// stands for itself.
pub proof fn inputs_are_base64_first(input: Seq<char>, text: Seq<char>)
    ensures
        url_safe_base64(encode_utf8(input)) == Some(encode_utf8(text)) ==> stands_for(input) == text,
        url_safe_base64(encode_utf8(input)) is None && text.len() > 0 && is_escape(
            encode_utf8(text),
            encode_utf8(input),
        ) ==> stands_for(input) == text,
        url_safe_base64(encode_utf8(input)) is None && !encode_utf8(input).contains(PERCENT)
            ==> stands_for(input) == input,
{
    texts_come_back(input, text, Seq::empty());
    if !encode_utf8(input).contains(PERCENT) {
        plain_inputs_stay(input);
    }
}

} // verus!
