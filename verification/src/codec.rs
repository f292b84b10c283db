//! The encode and decode transforms.

use crate::mask::Bitmask;
use vstd::prelude::*;

verus! {

/// Recognises the hexadecimal digit bytes `0-9`, `A-F`, `a-f`.
pub open spec fn is_hex_digit(b: u8) -> bool {
    ('0' as u8) <= b <= ('9' as u8) || ('A' as u8) <= b <= ('F' as u8) || ('a' as u8) <= b <= (
    'f' as u8)
}

/// The numeric value of a hexadecimal digit byte.
pub open spec fn hex_value(b: u8) -> u8
    recommends
        is_hex_digit(b),
{
    if ('0' as u8) <= b && b <= ('9' as u8) {
        (b - ('0' as u8)) as u8
    } else if ('A' as u8) <= b && b <= ('F' as u8) {
        (b - ('A' as u8) + 10) as u8
    } else {
        (b - ('a' as u8) + 10) as u8
    }
}

/// The uppercase hexadecimal digit byte for a nibble value.
pub open spec fn hex_digit_upper(n: u8) -> u8
    recommends
        n < 16,
{
    if n < 10 {
        (('0' as u8) + n) as u8
    } else {
        (('A' as u8) + (n - 10)) as u8
    }
}

/// How one input byte is encoded: the space byte becomes the `+` shorthand, a
/// byte of the safe set passes through, anything else becomes the `%XX`
/// escape triplet with uppercase hexadecimal digits, high nibble first.
pub open spec fn spec_encode_byte(mask: Bitmask, b: u8) -> Seq<u8> {
    if b == 32 {
        seq![('+' as u8)]
    } else if mask.spec_contains(b) {
        seq![b]
    } else {
        seq![('%' as u8), hex_digit_upper(b / 16), hex_digit_upper(b % 16)]
    }
}

/// The whole encoded output: each input byte's encoding, in input order.
pub open spec fn spec_encode(mask: Bitmask, s: Seq<u8>) -> Seq<u8>
    decreases s.len(),
{
    if s.len() == 0 {
        Seq::empty()
    } else {
        spec_encode_byte(mask, s[0]) + spec_encode(mask, s.drop_first())
    }
}

/// The decoded output for an encoded byte sequence, scanned left to right:
/// `+` becomes the space byte; a `%` followed by two hexadecimal digits
/// becomes the byte they spell and three positions are consumed; a `%` whose
/// escape is truncated or malformed is passed through literally and only the
/// `%` itself is consumed; every other byte passes through unchanged.
pub open spec fn spec_decode(s: Seq<u8>) -> Seq<u8>
    decreases s.len(),
{
    if s.len() == 0 {
        Seq::empty()
    } else if s[0] == ('+' as u8) {
        seq![32u8] + spec_decode(s.drop_first())
    } else if s[0] != ('%' as u8) {
        seq![s[0]] + spec_decode(s.drop_first())
    } else if s.len() >= 3 && is_hex_digit(s[1]) && is_hex_digit(s[2]) {
        seq![((hex_value(s[1]) * 16 + hex_value(s[2])) as u8)] + spec_decode(s.skip(3))
    } else {
        seq![('%' as u8)] + spec_decode(s.drop_first())
    }
}

/// A byte sequence reinterpreted as the characters with those code points.
pub open spec fn chars_of(s: Seq<u8>) -> Seq<char> {
    s.map_values(|b: u8| b as char)
}

/// Relies on `String::push` of std: it appends the given character to the
/// end of the string.
pub assume_specification[ String::push ](s: &mut String, c: char)
    ensures
        final(s)@ == old(s)@.push(c),
;

/// The uppercase hexadecimal digit for a nibble value.
fn hex_digit(n: u8) -> (r: u8)
    requires
        n < 16,
    ensures
        r == hex_digit_upper(n),
{
    if n < 10 {
        ('0' as u8) + n
    } else {
        ('A' as u8) + (n - 10)
    }
}

/// Encodes `src` using the provided [`Bitmask`] as the set of bytes that are
/// safe to pass through unescaped.
///
/// The output holds one `+` for each space byte, each safe byte itself, and a
/// `%XX` triplet for every other byte, in input order; it is ASCII
/// throughout, so its UTF-8 representation is exactly that byte sequence.
pub fn encode(src: &[u8], mask: Bitmask) -> (out: String)
    ensures
        out@ == chars_of(spec_encode(mask, src@)),
        vstd::utf8::encode_utf8(out@) == spec_encode(mask, src@),
        src@.len() <= spec_encode(mask, src@).len() <= 3 * src@.len(),
{
    let mut out = String::new();
    let mut i: usize = 0;
    proof {
        assert(src@.take(0) =~= Seq::<u8>::empty());
    }
    while i < src.len()
        invariant
            i <= src.len(),
            out@ == chars_of(spec_encode(mask, src@.take(i as int))),
        decreases src.len() - i,
    {
        let ch = src[i];
        if ch == 32 {
            out.push('+');
        } else if mask.contains(ch) {
            out.push(ch as char);
        } else {
            out.push('%');
            out.push(hex_digit(ch / 16) as char);
            out.push(hex_digit(ch % 16) as char);
        }
        proof {
            assert(src@.take(i + 1) =~= src@.take(i as int).push(src@[i as int]));
            lemma_encode_snoc(mask, src@.take(i as int), src@[i as int]);
            lemma_chars_of_concat(
                spec_encode(mask, src@.take(i as int)),
                spec_encode_byte(mask, src@[i as int]),
            );
            assert(out@ =~= chars_of(spec_encode(mask, src@.take(i + 1))));
        }
        i = i + 1;
    }
    proof {
        assert(src@.take(src@.len() as int) =~= src@);
        lemma_encode_len(mask, src@);
        lemma_encode_ascii(mask, src@);
        lemma_ascii_chars_of_bytes(spec_encode(mask, src@));
    }
    out
}

/// Decodes a percent-encoded string, operating on its raw UTF-8 bytes.
///
/// This is a total function: it has no failure case. A malformed escape — a
/// `%` with fewer than two bytes after it, or with a byte that is not a
/// hexadecimal digit among the next two — yields the literal `%` byte, and
/// scanning resumes right after the `%`.
pub fn decode(src: &str) -> (out: Vec<u8>)
    ensures
        out@ == spec_decode(vstd::utf8::encode_utf8(src@)),
{
    let bytes = src.as_bytes();
    let mut out: Vec<u8> = Vec::new();
    let mut i: usize = 0;
    let ghost all = bytes@;
    proof {
        assert(all.skip(0) =~= all);
    }
    while i < bytes.len()
        invariant
            i <= bytes.len(),
            bytes@ == all,
            out@ + spec_decode(all.skip(i as int)) == spec_decode(all),
        decreases bytes.len() - i,
    {
        let ghost rest = all.skip(i as int);
        let b = bytes[i];
        if b == ('+' as u8) {
            out.push(32);
            proof {
                assert(rest.drop_first() =~= all.skip(i + 1));
            }
            i = i + 1;
        } else if b != ('%' as u8) {
            out.push(b);
            proof {
                assert(rest.drop_first() =~= all.skip(i + 1));
            }
            i = i + 1;
        } else if bytes.len() - i >= 3 && is_hex(bytes[i + 1]) && is_hex(bytes[i + 2]) {
            let hi = hex_val(bytes[i + 1]);
            let lo = hex_val(bytes[i + 2]);
            out.push(hi * 16 + lo);
            proof {
                assert(rest.len() >= 3 && rest[1] == all[i + 1] && rest[2] == all[i + 2]);
                assert(rest.skip(3) =~= all.skip(i + 3));
            }
            i = i + 3;
        } else {
            out.push('%' as u8);
            proof {
                assert(rest.drop_first() =~= all.skip(i + 1));
            }
            i = i + 1;
        }
    }
    proof {
        assert(all.skip(all.len() as int) =~= Seq::<u8>::empty());
        assert(out@ =~= spec_decode(all));
    }
    out
}

/// Whether `b` is a hexadecimal digit byte.
fn is_hex(b: u8) -> (r: bool)
    ensures
        r == is_hex_digit(b),
{
    (('0' as u8) <= b && b <= ('9' as u8)) || (('A' as u8) <= b && b <= ('F' as u8)) || ((
    'a' as u8) <= b && b <= ('f' as u8))
}

/// The numeric value of a hexadecimal digit byte.
fn hex_val(b: u8) -> (r: u8)
    requires
        is_hex_digit(b),
    ensures
        r == hex_value(b),
        r < 16,
{
    if ('0' as u8) <= b && b <= ('9' as u8) {
        b - ('0' as u8)
    } else if ('A' as u8) <= b && b <= ('F' as u8) {
        b - ('A' as u8) + 10
    } else {
        b - ('a' as u8) + 10
    }
}

/// An uppercase hexadecimal digit spells the nibble it was built from.
proof fn lemma_hex_digit_upper_value(n: u8)
    requires
        n < 16,
    ensures
        is_hex_digit(hex_digit_upper(n)),
        hex_value(hex_digit_upper(n)) == n,
{
}

/// Decoding inverts encoding: for every byte sequence `v` and every mask,
/// `decode` applied to `encode(v, mask)` returns `v` again.
///
/// The two premises exclude the format's inherent ambiguities: when the mask
/// passes `+` through unescaped, an input `+` becomes indistinguishable from
/// an encoded space, and when it passes `%` through, an input `%` can spell
/// an escape of its own; the law holds whenever the input contains no byte
/// that the mask treats that way.
pub proof fn lemma_encode_decode_round_trip(mask: Bitmask, v: Seq<u8>)
    requires
        mask.spec_contains('+' as u8) ==> !v.contains('+' as u8),
        mask.spec_contains('%' as u8) ==> !v.contains('%' as u8),
    ensures
        spec_decode(spec_encode(mask, v)) == v,
    decreases v.len(),
{
    if v.len() == 0 {
        assert(spec_decode(spec_encode(mask, v)) =~= v);
    } else {
        let b = v[0];
        let tail = v.drop_first();
        assert forall|x: u8| tail.contains(x) implies v.contains(x) by {
            let i = choose|i: int| 0 <= i < tail.len() && tail[i] == x;
            assert(v[i + 1] == x);
        }
        lemma_encode_decode_round_trip(mask, tail);
        let head = spec_encode_byte(mask, b);
        let rest = spec_encode(mask, tail);
        let e = head + rest;
        assert(spec_encode(mask, v) == e);
        if b == 32 {
            assert(e[0] == ('+' as u8));
            assert(e.drop_first() =~= rest);
            assert(spec_decode(e) == seq![32u8] + spec_decode(rest));
        } else if mask.spec_contains(b) {
            assert(v.contains(b));
            assert(b != ('+' as u8) && b != ('%' as u8));
            assert(e[0] == b);
            assert(e.drop_first() =~= rest);
            assert(spec_decode(e) == seq![b] + spec_decode(rest));
        } else {
            lemma_hex_digit_upper_value(b / 16);
            lemma_hex_digit_upper_value(b % 16);
            assert(e[0] == ('%' as u8) && e[1] == hex_digit_upper(b / 16) && e[2]
                == hex_digit_upper(b % 16));
            assert(e.skip(3) =~= rest);
            assert(b / 16 * 16 + b % 16 == b) by (bit_vector);
            assert(spec_decode(e) == seq![b] + spec_decode(rest));
        }
        assert(seq![b] + tail =~= v);
        assert(spec_decode(spec_encode(mask, v)) =~= v);
    }
}

/// With a fixed mask, encoding is injective: two inputs with the same
/// encoded output are equal, whenever both inputs are free of the `+` and
/// `%` ambiguities that the round-trip law names.
pub proof fn lemma_encode_injective(mask: Bitmask, v1: Seq<u8>, v2: Seq<u8>)
    requires
        mask.spec_contains('+' as u8) ==> !v1.contains('+' as u8),
        mask.spec_contains('%' as u8) ==> !v1.contains('%' as u8),
        mask.spec_contains('+' as u8) ==> !v2.contains('+' as u8),
        mask.spec_contains('%' as u8) ==> !v2.contains('%' as u8),
        spec_encode(mask, v1) == spec_encode(mask, v2),
    ensures
        v1 == v2,
{
    lemma_encode_decode_round_trip(mask, v1);
    lemma_encode_decode_round_trip(mask, v2);
}

/// Encoding an extended input appends the last byte's encoding.
proof fn lemma_encode_snoc(mask: Bitmask, s: Seq<u8>, x: u8)
    ensures
        spec_encode(mask, s.push(x)) == spec_encode(mask, s) + spec_encode_byte(mask, x),
    decreases s.len(),
{
    if s.len() == 0 {
        let e = s.push(x);
        assert(e[0] == x);
        assert(e.drop_first() =~= Seq::<u8>::empty());
        assert(spec_encode(mask, e) == spec_encode_byte(mask, x) + spec_encode(
            mask,
            e.drop_first(),
        ));
        assert(spec_encode(mask, e.drop_first()) =~= Seq::<u8>::empty());
        assert(spec_encode_byte(mask, x) + Seq::<u8>::empty() =~= spec_encode_byte(mask, x));
        assert(spec_encode(mask, s) + spec_encode_byte(mask, x) =~= spec_encode_byte(mask, x));
    } else {
        assert(s.push(x).drop_first() =~= s.drop_first().push(x));
        lemma_encode_snoc(mask, s.drop_first(), x);
        assert(spec_encode(mask, s.push(x)) =~= spec_encode(mask, s) + spec_encode_byte(mask, x));
    }
}

/// Reinterpreting bytes as characters distributes over concatenation.
proof fn lemma_chars_of_concat(a: Seq<u8>, b: Seq<u8>)
    ensures
        chars_of(a + b) =~= chars_of(a) + chars_of(b),
{
}

/// The encoded output is between one and three bytes per input byte.
proof fn lemma_encode_len(mask: Bitmask, s: Seq<u8>)
    ensures
        s.len() <= spec_encode(mask, s).len() <= 3 * s.len(),
    decreases s.len(),
{
    if s.len() > 0 {
        lemma_encode_len(mask, s.drop_first());
    }
}

/// Every byte of the encoded output is ASCII: safe bytes lie in the printable
/// range, and `+`, `%` and hexadecimal digits are ASCII.
proof fn lemma_encode_ascii(mask: Bitmask, s: Seq<u8>)
    ensures
        forall|i: int| 0 <= i < spec_encode(mask, s).len() ==> spec_encode(mask, s)[i] < 128,
    decreases s.len(),
{
    if s.len() > 0 {
        lemma_encode_ascii(mask, s.drop_first());
        assert forall|i: int|
            0 <= i < spec_encode(mask, s).len() implies spec_encode(mask, s)[i] < 128 by {
            let head = spec_encode_byte(mask, s[0]);
            if i >= head.len() {
                assert(spec_encode(mask, s)[i] == spec_encode(mask, s.drop_first())[i - head.len()]);
            }
        }
    }
}

/// For an ASCII byte sequence, reading the bytes as characters and encoding
/// them back as UTF-8 returns the same bytes.
proof fn lemma_ascii_chars_of_bytes(s: Seq<u8>)
    requires
        forall|i: int| 0 <= i < s.len() ==> s[i] < 128,
    ensures
        vstd::utf8::encode_utf8(chars_of(s)) == s,
{
    assert(vstd::utf8::is_ascii_chars(chars_of(s)));
    vstd::utf8::is_ascii_chars_encode_utf8(chars_of(s));
    assert(vstd::utf8::encode_utf8(chars_of(s)) =~= s);
}

} // verus!
