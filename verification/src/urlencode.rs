use vstd::prelude::*;

verus! {

use vstd::string::StrSliceExecFns;
use vstd::utf8::encode_scalar;
use vstd::utf8::char_is_scalar;
use crate::strutil::push_char;

/// True of the characters that the percent-encoder passes through unchanged:
/// ASCII letters, digits, and `-`, `_`, `.`, `~`.
pub open spec fn is_unreserved(c: char) -> bool {
    ||| 'A' <= c <= 'Z'
    ||| 'a' <= c <= 'z'
    ||| '0' <= c <= '9'
    ||| c == '-'
    ||| c == '_'
    ||| c == '.'
    ||| c == '~'
}

/// The uppercase hexadecimal digit for a value below sixteen.
pub open spec fn hex_digit(n: int) -> char {
    if n < 10 {
        ((n + 48) as u8) as char
    } else {
        ((n + 55) as u8) as char
    }
}

/// `%HH` for one byte: a percent sign and two uppercase hexadecimal digits.
pub open spec fn percent_byte(b: u8) -> Seq<char> {
    seq!['%', hex_digit(b as int / 16), hex_digit(b as int % 16)]
}

/// The `%HH` renderings of a byte sequence, concatenated.
pub open spec fn percent_bytes(bs: Seq<u8>) -> Seq<char>
    decreases bs.len(),
{
    if bs.len() == 0 {
        Seq::empty()
    } else {
        percent_byte(bs[0]) + percent_bytes(bs.drop_first())
    }
}

/// What the encoder emits for one character: the character itself when it is
/// unreserved, otherwise `%HH` for each byte of its UTF-8 encoding.
pub open spec fn encode_char(c: char) -> Seq<char> {
    if is_unreserved(c) {
        seq![c]
    } else {
        percent_bytes(encode_scalar(c as u32))
    }
}

/// The percent-encoding of a character sequence.
pub open spec fn urlencode_spec(s: Seq<char>) -> Seq<char>
    decreases s.len(),
{
    if s.len() == 0 {
        Seq::empty()
    } else {
        encode_char(s[0]) + urlencode_spec(s.drop_first())
    }
}

/// Encoding distributes over appending one character at the end.
pub proof fn lemma_urlencode_snoc(s: Seq<char>, c: char)
    ensures
        urlencode_spec(s.push(c)) =~= urlencode_spec(s) + encode_char(c),
    decreases s.len(),
{
    if s.len() == 0 {
        assert(s.push(c)[0] == c);
        assert(s.push(c).drop_first() =~= Seq::<char>::empty());
        assert(urlencode_spec(s.push(c).drop_first()) == Seq::<char>::empty());
        assert(urlencode_spec(s) == Seq::<char>::empty());
    } else {
        assert(s.push(c)[0] == s[0]);
        assert(s.push(c).drop_first() == s.drop_first().push(c)) by {
            assert(s.push(c).drop_first() =~= s.drop_first().push(c));
        }
        lemma_urlencode_snoc(s.drop_first(), c);
        assert(urlencode_spec(s.push(c)) == encode_char(s[0]) + urlencode_spec(
            s.drop_first().push(c),
        ));
    }
}

/// The UTF-8 bytes of one character.
fn char_utf8(c: char) -> (bytes: Vec<u8>)
    ensures
        bytes@ =~= encode_scalar(c as u32),
{
    proof {
        char_is_scalar(c);
    }
    let u = c as u32;
    let mut bytes: Vec<u8> = Vec::new();
    if u <= 0x7F {
        assert((u & 0x7F) <= 0x7F) by (bit_vector);
        bytes.push((u & 0x7F) as u8);
    } else if u <= 0x7FF {
        assert(((u >> 6) & 0x1F) <= 0x1F && (u & 0x3F) <= 0x3F) by (bit_vector);
        bytes.push(0xC0 | ((u >> 6) & 0x1F) as u8);
        bytes.push(0x80 | (u & 0x3F) as u8);
    } else if u <= 0xFFFF {
        assert(((u >> 12) & 0x0F) <= 0x0F && ((u >> 6) & 0x3F) <= 0x3F && (u & 0x3F) <= 0x3F)
            by (bit_vector);
        bytes.push(0xE0 | ((u >> 12) & 0x0F) as u8);
        bytes.push(0x80 | ((u >> 6) & 0x3F) as u8);
        bytes.push(0x80 | (u & 0x3F) as u8);
    } else {
        assert(((u >> 18) & 0x7) <= 0x7 && ((u >> 12) & 0x3F) <= 0x3F && ((u >> 6) & 0x3F) <= 0x3F
            && (u & 0x3F) <= 0x3F) by (bit_vector);
        bytes.push(0xF0 | ((u >> 18) & 0x7) as u8);
        bytes.push(0x80 | ((u >> 12) & 0x3F) as u8);
        bytes.push(0x80 | ((u >> 6) & 0x3F) as u8);
        bytes.push(0x80 | (u & 0x3F) as u8);
    }
    bytes
}

/// The uppercase hexadecimal digit of a value below sixteen.
fn hex_digit_char(n: u8) -> (c: char)
    requires
        n < 16,
    ensures
        c == hex_digit(n as int),
{
    if n < 10 {
        (n + 48) as char
    } else {
        (n + 55) as char
    }
}

/// Appends `%HH` for one byte.
fn push_percent_byte(out: &mut String, b: u8)
    ensures
        final(out)@ == old(out)@ + percent_byte(b),
{
    push_char(out, '%');
    push_char(out, hex_digit_char(b / 16));
    push_char(out, hex_digit_char(b % 16));
    assert(final(out)@ =~= old(out)@ + percent_byte(b));
}

/// Percent-encodes a string for embedding in a URL path segment: characters
/// in the unreserved set (ASCII letters, digits, `-`, `_`, `.`, `~`) pass
/// through unchanged; every other character is replaced by `%HH` for each
/// byte of its UTF-8 encoding, in uppercase hexadecimal.
pub fn urlencode(input: &str) -> (r: String)
    ensures
        r@ == urlencode_spec(input@),
{
    let n = input.unicode_len();
    let mut out = String::new();
    let mut i: usize = 0;
    while i < n
        invariant
            i <= n,
            n == input@.len(),
            out@ == urlencode_spec(input@.subrange(0, i as int)),
        decreases n - i,
    {
        let c = input.get_char(i);
        if ('A' <= c && c <= 'Z') || ('a' <= c && c <= 'z') || ('0' <= c && c <= '9') || c == '-'
            || c == '_' || c == '.' || c == '~' {
            push_char(&mut out, c);
            assert(out@ =~= urlencode_spec(input@.subrange(0, i as int)) + encode_char(c));
        } else {
            let bytes = char_utf8(c);
            let mut k: usize = 0;
            let ghost base = out@;
            while k < bytes.len()
                invariant
                    k <= bytes@.len(),
                    out@ == base + percent_bytes(bytes@.subrange(0, k as int)),
                decreases bytes@.len() - k,
            {
                let b = bytes[k];
                push_percent_byte(&mut out, b);
                proof {
                    lemma_percent_bytes_snoc(bytes@.subrange(0, k as int), b);
                    assert(bytes@.subrange(0, k + 1 as int) =~= bytes@.subrange(
                        0,
                        k as int,
                    ).push(b));
                    assert(out@ =~= base + percent_bytes(bytes@.subrange(0, k + 1 as int)));
                }
                k = k + 1;
            }
            assert(bytes@.subrange(0, bytes@.len() as int) =~= bytes@);
            assert(out@ =~= urlencode_spec(input@.subrange(0, i as int)) + encode_char(c));
        }
        proof {
            lemma_urlencode_snoc(input@.subrange(0, i as int), c);
            assert(input@.subrange(0, i + 1 as int) =~= input@.subrange(0, i as int).push(c));
        }
        i = i + 1;
    }
    assert(input@.subrange(0, n as int) =~= input@);
    out
}

/// `%HH` rendering distributes over appending one byte at the end.
proof fn lemma_percent_bytes_snoc(bs: Seq<u8>, b: u8)
    ensures
        percent_bytes(bs.push(b)) =~= percent_bytes(bs) + percent_byte(b),
    decreases bs.len(),
{
    if bs.len() == 0 {
        assert(bs.push(b)[0] == b);
        assert(bs.push(b).drop_first() =~= Seq::<u8>::empty());
        assert(percent_bytes(bs.push(b).drop_first()) == Seq::<char>::empty());
        assert(percent_bytes(bs) == Seq::<char>::empty());
    } else {
        assert(bs.push(b)[0] == bs[0]);
        assert(bs.push(b).drop_first() == bs.drop_first().push(b)) by {
            assert(bs.push(b).drop_first() =~= bs.drop_first().push(b));
        }
        lemma_percent_bytes_snoc(bs.drop_first(), b);
        assert(percent_bytes(bs.push(b)) == percent_byte(bs[0]) + percent_bytes(
            bs.drop_first().push(b),
        ));
    }
}

/// A string of unreserved characters encodes to itself.
pub proof fn lemma_urlencode_identity(s: Seq<char>)
    requires
        forall|i: int| 0 <= i < s.len() ==> is_unreserved(s[i]),
    ensures
        urlencode_spec(s) =~= s,
    decreases s.len(),
{
    if s.len() != 0 {
        assert(is_unreserved(s[0]));
        lemma_urlencode_identity(s.drop_first());
        assert(urlencode_spec(s) =~= seq![s[0]] + s.drop_first());
    }
}

/// A character outside the unreserved set encodes to `%HH` for each of its
/// UTF-8 bytes.
pub proof fn lemma_urlencode_coverage(c: char)
    requires
        !is_unreserved(c),
    ensures
        urlencode_spec(seq![c]) =~= percent_bytes(encode_scalar(c as u32)),
{
    assert(seq![c][0] == c);
    assert(seq![c].drop_first() == Seq::<char>::empty()) by {
        assert(seq![c].drop_first() =~= Seq::<char>::empty());
    }
    assert(urlencode_spec(seq![c]) == encode_char(c) + urlencode_spec(Seq::<char>::empty()));
    assert(urlencode_spec(Seq::<char>::empty()) == Seq::<char>::empty());
    assert(urlencode_spec(seq![c]) =~= encode_char(c));
}

} // verus!
