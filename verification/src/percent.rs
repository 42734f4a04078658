//! Percent-encoding of UTF-8 text, so that any path can travel inside a URL
//! and come back intact.

use vstd::prelude::*;
use vstd::utf8::{
    char_is_scalar, decode_first_scalar, decode_utf8, encode_scalar, encode_utf8,
    encode_utf8_decode_utf8, encode_utf8_first_scalar, encode_utf8_valid_utf8, has_width_1_encoding,
    has_width_2_encoding, has_width_3_encoding, is_ascii_chars, is_ascii_chars_encode_utf8,
    leading_byte_width_1, leading_byte_width_2, leading_byte_width_3, leading_byte_width_4,
    last_continuation_byte, length_of_first_scalar, pop_first_scalar, second_last_continuation_byte,
    third_last_continuation_byte, valid_first_scalar, valid_utf8,
};
use crate::text::push_char;

verus! {

/// Bytes that percent-encoding keeps as they are: ASCII letters and digits,
/// `-`, `_`, `.` and `~`.
pub open spec fn is_unreserved(b: u8) -> bool {
    (0x41 <= b <= 0x5a)  // A-Z
     || (0x61 <= b <= 0x7a)  // a-z
     || (0x30 <= b <= 0x39)  // 0-9
     || b == 0x2d  // -
     || b == 0x5f  // _
     || b == 0x2e  // .
     || b == 0x7e  // ~

}

/// The upper-case hexadecimal digit for `d` (< 16).
pub open spec fn hex_digit(d: u8) -> char {
    if d < 10 {
        (0x30 + d) as char
    } else {
        (0x41 + d - 10) as char
    }
}

/// The value of a hexadecimal digit byte, either case.
pub open spec fn hex_value(b: u8) -> Option<u8> {
    if 0x30 <= b <= 0x39 {
        Some((b - 0x30) as u8)
    } else if 0x61 <= b <= 0x66 {
        Some((b - 0x61 + 10) as u8)
    } else if 0x41 <= b <= 0x46 {
        Some((b - 0x41 + 10) as u8)
    } else {
        None
    }
}

/// How one byte is written: itself when unreserved, `%XY` otherwise.
pub open spec fn encode_byte(b: u8) -> Seq<char> {
    if is_unreserved(b) {
        seq![b as char]
    } else {
        seq!['%', hex_digit(b / 16), hex_digit(b % 16)]
    }
}

/// The percent-encoding of a byte sequence.
pub open spec fn encode_bytes(bs: Seq<u8>) -> Seq<char>
    decreases bs.len(),
{
    if bs.len() == 0 {
        Seq::empty()
    } else {
        encode_byte(bs[0]) + encode_bytes(bs.skip(1))
    }
}

/// The percent-encoding of the UTF-8 bytes of `s`.
pub open spec fn spec_percent_encode(s: Seq<char>) -> Seq<char> {
    encode_bytes(encode_utf8(s))
}

/// The bytes a percent-encoded byte sequence stands for; `None` when a `%`
/// is not followed by two hexadecimal digits.
pub open spec fn decode_bytes(bs: Seq<u8>) -> Option<Seq<u8>>
    decreases bs.len(),
{
    if bs.len() == 0 {
        Some(Seq::empty())
    } else if bs[0] == 0x25 {
        if bs.len() < 3 {
            None
        } else {
            match (hex_value(bs[1]), hex_value(bs[2])) {
                (Some(h), Some(l)) => match decode_bytes(bs.skip(3)) {
                    Some(r) => Some(seq![(h * 16 + l) as u8] + r),
                    None => None,
                },
                _ => None,
            }
        }
    } else {
        match decode_bytes(bs.skip(1)) {
            Some(r) => Some(seq![bs[0]] + r),
            None => None,
        }
    }
}

/// The text a percent-encoded string stands for: `None` when an escape is
/// malformed or the decoded bytes are not UTF-8.
pub open spec fn spec_percent_decode(s: Seq<char>) -> Option<Seq<char>> {
    match decode_bytes(encode_utf8(s)) {
        Some(b) => if valid_utf8(b) {
            Some(decode_utf8(b))
        } else {
            None
        },
        None => None,
    }
}

/// Characters that can appear in percent-encoded text: the unreserved set,
/// `%` and upper-case hexadecimal digits.
pub open spec fn is_url_safe(c: char) -> bool {
    (c as u32) < 128 && (is_unreserved(c as u8) || c == '%')
}

/// The bytes of a sequence of ASCII characters.
pub open spec fn ascii_bytes(cs: Seq<char>) -> Seq<u8> {
    Seq::new(cs.len(), |i: int| cs[i] as u8)
}

proof fn lemma_hex_digit(d: u8)
    requires
        d < 16,
    ensures
        (hex_digit(d) as u32) < 128,
        hex_value(hex_digit(d) as u8) == Some(d),
        is_unreserved(hex_digit(d) as u8),
        hex_digit(d) as u8 as char == hex_digit(d),
{
}

proof fn lemma_encode_byte_safe(b: u8)
    ensures
        forall|i: int| 0 <= i < encode_byte(b).len() ==> is_url_safe(#[trigger] encode_byte(b)[i]),
{
    if !is_unreserved(b) {
        lemma_hex_digit(b / 16);
        lemma_hex_digit(b % 16);
    }
}

/// Every character of a percent-encoding is URL-safe.
pub proof fn lemma_encode_bytes_safe(bs: Seq<u8>)
    ensures
        forall|i: int|
            0 <= i < encode_bytes(bs).len() ==> is_url_safe(#[trigger] encode_bytes(bs)[i]),
    decreases bs.len(),
{
    if bs.len() > 0 {
        lemma_encode_byte_safe(bs[0]);
        lemma_encode_bytes_safe(bs.skip(1));
        let e = encode_byte(bs[0]);
        let r = encode_bytes(bs.skip(1));
        assert forall|i: int| 0 <= i < encode_bytes(bs).len() implies is_url_safe(
            #[trigger] encode_bytes(bs)[i],
        ) by {
            if i < e.len() {
                assert(encode_bytes(bs)[i] == e[i]);
            } else {
                assert(encode_bytes(bs)[i] == r[i - e.len()]);
            }
        }
    }
}

proof fn lemma_decode_encoded(bs: Seq<u8>)
    ensures
        decode_bytes(ascii_bytes(encode_bytes(bs))) == Some(bs),
    decreases bs.len(),
{
    if bs.len() == 0 {
        assert(ascii_bytes(encode_bytes(bs)) =~= Seq::<u8>::empty());
    } else {
        let b = bs[0];
        let e = encode_byte(b);
        let rest = encode_bytes(bs.skip(1));
        let a = ascii_bytes(e + rest);
        assert(encode_bytes(bs) == e + rest);
        lemma_decode_encoded(bs.skip(1));
        if is_unreserved(b) {
            assert(a[0] == b);
            assert(a.skip(1) =~= ascii_bytes(rest));
            assert(seq![b] + bs.skip(1) =~= bs);
        } else {
            lemma_hex_digit(b / 16);
            lemma_hex_digit(b % 16);
            assert(a[0] == 0x25);
            assert(a[1] == hex_digit(b / 16) as u8);
            assert(a[2] == hex_digit(b % 16) as u8);
            assert(a.skip(3) =~= ascii_bytes(rest));
            assert(((b / 16) * 16 + b % 16) as u8 == b);
            assert(seq![b] + bs.skip(1) =~= bs);
        }
    }
}

proof fn lemma_char_below_128(c: char)
    requires
        (c as u32) < 128,
    ensures
        '\0' <= c <= '\u{7f}',
{
}

/// Decoding what [`percent_encode`] produced gives back the text it was given,
/// whatever it holds.
pub proof fn lemma_percent_round_trip(s: Seq<char>)
    ensures
        spec_percent_decode(spec_percent_encode(s)) == Some(s),
{
    let bs = encode_utf8(s);
    let e = encode_bytes(bs);
    lemma_encode_bytes_safe(bs);
    assert forall|i: int| 0 <= i < e.len() implies '\0' <= #[trigger] e[i] <= '\u{7f}' by {
        assert(is_url_safe(e[i]));
        lemma_char_below_128(e[i]);
    }
    assert(is_ascii_chars(e));
    is_ascii_chars_encode_utf8(e);
    assert(encode_utf8(e) =~= ascii_bytes(e));
    lemma_decode_encoded(bs);
    encode_utf8_valid_utf8(s);
    encode_utf8_decode_utf8(s);
}

/// No byte of the UTF-8 encoding of a character other than `%` is the
/// byte of `%`: one-byte encodings are the character itself, and every byte
/// of a longer one has its top bit set.
proof fn lemma_scalar_has_no_percent(c: char)
    requires
        c != '%',
    ensures
        forall|i: int|
            0 <= i < encode_scalar(c as u32).len() ==> #[trigger] encode_scalar(c as u32)[i] != 0x25u8,
{
    let v = c as u32;
    char_is_scalar(c);
    assert(v != 0x25u32);
    if has_width_1_encoding(v) {
        assert(leading_byte_width_1(v) != 0x25u8) by (bit_vector)
            requires
                v <= 0x7f,
                v != 0x25u32,
        ;
    } else {
        assert(leading_byte_width_2(v) >= 0x80u8) by (bit_vector);
        assert(leading_byte_width_3(v) >= 0x80u8) by (bit_vector);
        assert(leading_byte_width_4(v) >= 0x80u8) by (bit_vector);
        assert(last_continuation_byte(v) >= 0x80u8) by (bit_vector);
        assert(second_last_continuation_byte(v) >= 0x80u8) by (bit_vector);
        assert(third_last_continuation_byte(v) >= 0x80u8) by (bit_vector);
    }
}

/// Text without `%` encodes to bytes without `%`.
proof fn lemma_text_has_no_percent_byte(a: Seq<char>)
    requires
        forall|i: int| 0 <= i < a.len() ==> #[trigger] a[i] != '%',
    ensures
        forall|j: int| 0 <= j < encode_utf8(a).len() ==> #[trigger] encode_utf8(a)[j] != 0x25u8,
    decreases a.len(),
{
    if a.len() > 0 {
        let rest = a.drop_first();
        assert forall|i: int| 0 <= i < rest.len() implies #[trigger] rest[i] != '%' by {
            assert(rest[i] == a[i + 1]);
        }
        lemma_text_has_no_percent_byte(rest);
        lemma_scalar_has_no_percent(a[0]);
        let e = encode_scalar(a[0] as u32);
        let r = encode_utf8(rest);
        assert forall|j: int| 0 <= j < encode_utf8(a).len() implies #[trigger] encode_utf8(a)[j]
            != 0x25u8 by {
            if j < e.len() {
                assert(encode_utf8(a)[j] == e[j]);
            } else {
                assert(encode_utf8(a)[j] == r[j - e.len()]);
            }
        }
    }
}

/// Bytes other than `%` pass through decoding unchanged.
proof fn lemma_decode_plain_bytes(x: Seq<u8>, y: Seq<u8>)
    requires
        forall|j: int| 0 <= j < x.len() ==> #[trigger] x[j] != 0x25u8,
    ensures
        decode_bytes(x + y) == match decode_bytes(y) {
            Some(r) => Some(x + r),
            None => None::<Seq<u8>>,
        },
    decreases x.len(),
{
    if x.len() == 0 {
        assert(x + y =~= y);
        if let Some(r) = decode_bytes(y) {
            assert(x + r =~= r);
        }
    } else {
        let z = x + y;
        assert(z[0] == x[0]);
        assert(z.skip(1) =~= x.skip(1) + y);
        assert forall|j: int| 0 <= j < x.skip(1).len() implies #[trigger] x.skip(1)[j] != 0x25u8 by {
            assert(x.skip(1)[j] == x[j + 1]);
        }
        lemma_decode_plain_bytes(x.skip(1), y);
        if let Some(r) = decode_bytes(y) {
            assert(seq![x[0]] + (x.skip(1) + r) =~= x + r);
        }
    }
}

/// The UTF-8 encoding of two texts one after the other.
proof fn lemma_encode_utf8_concat(a: Seq<char>, b: Seq<char>)
    ensures
        encode_utf8(a + b) == encode_utf8(a) + encode_utf8(b),
    decreases a.len(),
{
    if a.len() == 0 {
        assert(a + b =~= b);
        assert(encode_utf8(a) + encode_utf8(b) =~= encode_utf8(b));
    } else {
        assert((a + b).drop_first() =~= a.drop_first() + b);
        assert((a + b)[0] == a[0]);
        lemma_encode_utf8_concat(a.drop_first(), b);
        assert(encode_utf8(a + b) =~= encode_utf8(a) + encode_utf8(b));
    }
}

/// Bytes after the encoding of a character are valid UTF-8 exactly when the
/// whole is, and decode to that character followed by what they decode to.
proof fn lemma_utf8_after_char(c: char, y: Seq<u8>)
    ensures
        valid_utf8(encode_utf8(seq![c]) + y) == valid_utf8(y),
        valid_utf8(y) ==> decode_utf8(encode_utf8(seq![c]) + y) == seq![c] + decode_utf8(y),
{
    let cs = seq![c];
    let e = encode_utf8(cs);
    encode_utf8_first_scalar(cs);
    assert(cs.drop_first() =~= Seq::<char>::empty());
    assert(encode_utf8(cs.drop_first()).len() == 0);
    assert(cs[0] == c);
    assert(e =~= encode_scalar(c as u32));
    let z = e + y;
    assert(1 <= e.len() <= 4);
    assert forall|i: int| 0 <= i < e.len() implies z[i] == e[i] by {}
    assert(valid_first_scalar(z));
    assert(length_of_first_scalar(z) == e.len());
    assert(decode_first_scalar(z) == c as u32);
    assert(pop_first_scalar(z) =~= y);
    assert((c as u32) as char == c);
}

/// Bytes after the encoding of a text are valid UTF-8 exactly when the whole
/// is, and decode to that text followed by what they decode to.
proof fn lemma_utf8_after_text(a: Seq<char>, y: Seq<u8>)
    ensures
        valid_utf8(encode_utf8(a) + y) == valid_utf8(y),
        valid_utf8(y) ==> decode_utf8(encode_utf8(a) + y) == a + decode_utf8(y),
    decreases a.len(),
{
    if a.len() == 0 {
        assert(encode_utf8(a) + y =~= y);
        assert(a + decode_utf8(y) =~= decode_utf8(y));
    } else {
        let rest = a.drop_first();
        lemma_utf8_after_text(rest, y);
        lemma_encode_utf8_concat(seq![a[0]], rest);
        assert(seq![a[0]] + rest =~= a);
        let w = encode_utf8(rest) + y;
        assert(encode_utf8(a) + y =~= encode_utf8(seq![a[0]]) + w);
        lemma_utf8_after_char(a[0], w);
        if valid_utf8(y) {
            assert(seq![a[0]] + (rest + decode_utf8(y)) =~= a + decode_utf8(y));
        }
    }
}

/// Decoding passes text without `%` through unchanged, in front of whatever
/// follows it: such text decodes to itself, whatever characters it holds
/// (`資料 1.md` among them), and `a + b` decodes to `a` followed by what `b`
/// decodes to, failing exactly when `b` does.
pub proof fn lemma_decoding_passes_plain_text(a: Seq<char>, b: Seq<char>)
    requires
        forall|i: int| 0 <= i < a.len() ==> #[trigger] a[i] != '%',
    ensures
        spec_percent_decode(a) == Some(a),
        spec_percent_decode(a + b) == match spec_percent_decode(b) {
            Some(d) => Some(a + d),
            None => None::<Seq<char>>,
        },
{
    lemma_text_has_no_percent_byte(a);
    lemma_encode_utf8_concat(a, b);
    let ea = encode_utf8(a);
    lemma_decode_plain_bytes(ea, encode_utf8(b));
    lemma_decode_plain_bytes(ea, Seq::<u8>::empty());
    assert(ea + Seq::<u8>::empty() =~= ea);
    assert(decode_bytes(Seq::<u8>::empty()) == Some(Seq::<u8>::empty()));
    assert(ea + Seq::<u8>::empty() =~= ea);
    encode_utf8_valid_utf8(a);
    encode_utf8_decode_utf8(a);
    if let Some(r) = decode_bytes(encode_utf8(b)) {
        lemma_utf8_after_text(a, r);
    }
}

/// Decodes UTF-8 bytes into a `String` (`String::from_utf8`).
///
/// Trusted: std documents that `from_utf8` succeeds exactly when the bytes
/// are valid UTF-8 and then holds the characters they encode.
#[verifier::external_body]
pub(crate) fn utf8_to_string(bytes: Vec<u8>) -> (r: Option<String>)
    ensures
        r is Some <==> valid_utf8(bytes@),
        r matches Some(s) ==> s@ == decode_utf8(bytes@),
{
    match String::from_utf8(bytes) {
        Ok(s) => Some(s),
        Err(_) => None,
    }
}

/// Exec form of [`hex_digit`].
fn hex_digit_of(d: u8) -> (c: char)
    requires
        d < 16,
    ensures
        c == hex_digit(d),
{
    if d < 10 {
        (0x30 + d) as char
    } else {
        (0x41 + d - 10) as char
    }
}

/// Exec form of [`hex_value`].
fn hex_value_of(b: u8) -> (r: Option<u8>)
    ensures
        r == hex_value(b),
{
    if 0x30 <= b && b <= 0x39 {
        Some(b - 0x30)
    } else if 0x61 <= b && b <= 0x66 {
        Some(b - 0x61 + 10)
    } else if 0x41 <= b && b <= 0x46 {
        Some(b - 0x41 + 10)
    } else {
        None
    }
}

/// Percent-encodes every byte outside the unreserved set, so a Windows path
/// survives a round trip through a URL intact.
pub fn percent_encode(text: &str) -> (out: String)
    ensures
        out@ == spec_percent_encode(text@),
        forall|i: int| 0 <= i < out@.len() ==> is_url_safe(#[trigger] out@[i]),
{
    proof {
        lemma_encode_bytes_safe(encode_utf8(text@));
    }
    let bytes = text.as_bytes();
    let ghost bs = bytes@;
    assert(bs == encode_utf8(text@));
    let mut out = String::new();
    let mut i: usize = 0;
    assert(bs.skip(0) =~= bs);
    while i < bytes.len()
        invariant
            i <= bs.len(),
            bs == bytes@,
            encode_bytes(bs) == out@ + encode_bytes(bs.skip(i as int)),
        decreases bs.len() - i,
    {
        let b = bytes[i];
        let ghost before = out@;
        assert(bs.skip(i as int).skip(1) =~= bs.skip(i + 1));
        if (0x41 <= b && b <= 0x5a) || (0x61 <= b && b <= 0x7a) || (0x30 <= b && b <= 0x39) || b
            == 0x2d || b == 0x5f || b == 0x2e || b == 0x7e {
            push_char(&mut out, b as char);
        } else {
            push_char(&mut out, '%');
            push_char(&mut out, hex_digit_of(b / 16));
            push_char(&mut out, hex_digit_of(b % 16));
        }
        assert(out@ =~= before + encode_byte(b));
        assert(encode_bytes(bs.skip(i as int)) == encode_byte(b) + encode_bytes(bs.skip(i + 1)));
        assert(before + encode_bytes(bs.skip(i as int)) =~= out@ + encode_bytes(bs.skip(i + 1)));
        i += 1;
    }
    assert(bs.skip(i as int) =~= Seq::<u8>::empty());
    assert(out@ =~= out@ + encode_bytes(bs.skip(i as int)));
    out
}

/// Reverses [`percent_encode`]. `None` when the input is malformed or the bytes
/// it encodes are not UTF-8.
pub fn percent_decode(text: &str) -> (r: Option<String>)
    ensures
        r.deep_view() == spec_percent_decode(text@),
{
    let bytes = text.as_bytes();
    let ghost bs = bytes@;
    assert(bs == encode_utf8(text@));
    let len = bytes.len();
    let mut out: Vec<u8> = Vec::new();
    let mut i: usize = 0;
    assert(bs.skip(0) =~= bs);
    while i < len
        invariant
            i <= len,
            len == bs.len(),
            bs == bytes@,
            bs == encode_utf8(text@),
            decode_bytes(bs) == (match decode_bytes(bs.skip(i as int)) {
                Some(rest) => Some(out@ + rest),
                None => None,
            }),
        decreases len - i,
    {
        let ghost t = bs.skip(i as int);
        let ghost before = out@;
        if bytes[i] == 0x25 {
            if len - i < 3 {
                assert(decode_bytes(t) is None);
                return None;
            }
            let hi = hex_value_of(bytes[i + 1]);
            let lo = hex_value_of(bytes[i + 2]);
            assert(t[1] == bs[i + 1] && t[2] == bs[i + 2]);
            match (hi, lo) {
                (Some(h), Some(l)) => {
                    assert(h < 16 && l < 16);
                    out.push(h * 16 + l);
                    assert(t.skip(3) =~= bs.skip(i + 3));
                    proof {
                        match decode_bytes(bs.skip(i + 3)) {
                            Some(r) => {
                                assert(out@ + r =~= before + (seq![(h * 16 + l) as u8] + r));
                            },
                            None => {},
                        }
                    }
                    i += 3;
                },
                _ => {
                    assert(decode_bytes(t) is None);
                    return None;
                },
            }
        } else {
            out.push(bytes[i]);
            assert(t.skip(1) =~= bs.skip(i + 1));
            proof {
                match decode_bytes(bs.skip(i + 1)) {
                    Some(r) => {
                        assert(out@ + r =~= before + (seq![bs[i as int]] + r));
                    },
                    None => {},
                }
            }
            i += 1;
        }
    }
    assert(bs.skip(i as int) =~= Seq::<u8>::empty());
    assert(out@ + Seq::<u8>::empty() =~= out@);
    utf8_to_string(out)
}

} // verus!
