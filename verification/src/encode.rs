//! The two text encodings that requests and file names need: Base64 for
//! credentials and percent-decoding for path segments.

use crate::bytes::{decode_lossy, hex};
#[allow(unused_imports)]
use crate::bytes::{as_text, hex_value};
use vstd::prelude::*;
#[allow(unused_imports)]
use vstd::utf8::encode_utf8;

verus! {

/// The Base64 character for a value below sixty-four.
pub open spec fn sextet_char(n: int) -> char {
    if n < 26 {
        ('A' as int + n) as char
    } else if n < 52 {
        ('a' as int + (n - 26)) as char
    } else if n < 62 {
        ('0' as int + (n - 52)) as char
    } else if n == 62 {
        '+'
    } else {
        '/'
    }
}

/// The value that a Base64 character stands for; the padding stands for zero.
pub open spec fn sextet_value(c: char) -> int {
    if 'A' <= c <= 'Z' {
        c as int - 'A' as int
    } else if 'a' <= c <= 'z' {
        c as int - 'a' as int + 26
    } else if '0' <= c <= '9' {
        c as int - '0' as int + 52
    } else if c == '+' {
        62
    } else if c == '/' {
        63
    } else {
        0
    }
}

/// The four Base64 characters for up to three bytes, padded with `'='`.
pub open spec fn base64_group(data: Seq<u8>) -> Seq<char> {
    let b0 = data[0] as int;
    let b1 = if data.len() > 1 {
        data[1] as int
    } else {
        0
    };
    let b2 = if data.len() > 2 {
        data[2] as int
    } else {
        0
    };
    let n = b0 * 65536 + b1 * 256 + b2;
    seq![
        sextet_char(n / 262144),
        sextet_char(n / 4096 % 64),
        if data.len() > 1 {
            sextet_char(n / 64 % 64)
        } else {
            '='
        },
        if data.len() > 2 {
            sextet_char(n % 64)
        } else {
            '='
        },
    ]
}

/// The Base64 form of `data`, with padding.
pub open spec fn base64_text(data: Seq<u8>) -> Seq<char>
    decreases data.len(),
{
    if data.len() == 0 {
        Seq::empty()
    } else if data.len() <= 3 {
        base64_group(data)
    } else {
        base64_group(data.take(3)) + base64_text(data.skip(3))
    }
}

/// The bytes that a Base64 text stands for.
pub open spec fn base64_bytes(text: Seq<char>) -> Seq<u8>
    decreases text.len(),
{
    if text.len() < 4 {
        Seq::empty()
    } else {
        let n = sextet_value(text[0]) * 262144 + sextet_value(text[1]) * 4096 + sextet_value(
            text[2],
        ) * 64 + sextet_value(text[3]);
        let group = seq![(n / 65536) as u8, (n / 256 % 256) as u8, (n % 256) as u8];
        let kept = if text[2] == '=' {
            group.take(1)
        } else if text[3] == '=' {
            group.take(2)
        } else {
            group
        };
        kept + base64_bytes(text.skip(4))
    }
}

fn sextet(n: u32) -> (r: char)
    requires
        n < 64,
    ensures
        r == sextet_char(n as int),
{
    if n < 26 {
        (0x41 + n as u8) as char
    } else if n < 52 {
        (0x61 + (n as u8 - 26)) as char
    } else if n < 62 {
        (0x30 + (n as u8 - 52)) as char
    } else if n == 62 {
        '+'
    } else {
        '/'
    }
}

/// Encodes bytes as Base64, with padding.
pub fn base64(data: &[u8]) -> (r: String)
    ensures
        r@ == base64_text(data@),
{
    let mut out = String::new();
    let len: usize = data.len();
    let mut i: usize = 0;
    proof {
        assert(data@.skip(0) =~= data@);
        assert(out@ + base64_text(data@) =~= base64_text(data@));
    }
    while i < len
        invariant
            i <= len == data@.len(),
            out@ + base64_text(data@.skip(i as int)) == base64_text(data@),
        decreases len - i,
    {
        let ghost rest = data@.skip(i as int);
        let ghost before = out@;
        let left: usize = len - i;
        let b0: u32 = data[i] as u32;
        let b1: u32 = if left > 1 {
            data[i + 1] as u32
        } else {
            0
        };
        let b2: u32 = if left > 2 {
            data[i + 2] as u32
        } else {
            0
        };
        let n: u32 = b0 * 65536 + b1 * 256 + b2;
        out.push(sextet(n / 262144));
        out.push(sextet(n / 4096 % 64));
        out.push(
            if left > 1 {
                sextet(n / 64 % 64)
            } else {
                '='
            },
        );
        out.push(
            if left > 2 {
                sextet(n % 64)
            } else {
                '='
            },
        );
        let step: usize = if left > 3 {
            3
        } else {
            left
        };
        proof {
            let head = rest.take(step as int);
            assert(head.len() == step);
            assert(out@ =~= before + base64_group(head));
            assert(rest.skip(step as int) =~= data@.skip(i + step));
            if left <= 3 {
                assert(head =~= rest);
                assert(rest.skip(step as int) =~= Seq::<u8>::empty());
                assert(out@ + Seq::<char>::empty() =~= out@);
            } else {
                assert(before + (base64_group(head) + base64_text(rest.skip(3))) =~= out@
                    + base64_text(rest.skip(3)));
            }
        }
        i = i + step;
    }
    proof {
        assert(data@.skip(i as int) =~= Seq::<u8>::empty());
        assert(out@ + Seq::<char>::empty() =~= out@);
    }
    out
}

proof fn lemma_sextet(n: int)
    requires
        0 <= n < 64,
    ensures
        sextet_value(sextet_char(n)) == n,
        sextet_char(n) != '=',
{
}

proof fn lemma_group_sum(n: int)
    requires
        0 <= n < 16777216,
    ensures
        n == n / 262144 * 262144 + n / 4096 % 64 * 4096 + n / 64 % 64 * 64 + n % 64,
        0 <= n / 262144 < 64,
{
    assert(n / 64 == n / 4096 * 64 + n / 64 % 64);
    assert(n / 4096 == n / 262144 * 64 + n / 4096 % 64);
}

proof fn lemma_group_bytes(b0: int, b1: int, b2: int)
    requires
        0 <= b0 < 256,
        0 <= b1 < 256,
        0 <= b2 < 256,
    ensures
        ({
            let n = b0 * 65536 + b1 * 256 + b2;
            &&& 0 <= n < 16777216
            &&& n / 65536 == b0
            &&& n / 256 % 256 == b1
            &&& n % 256 == b2
            &&& b2 == 0 ==> n % 64 == 0
            &&& b1 == 0 && b2 == 0 ==> n / 64 % 64 == 0 && n % 64 == 0
        }),
{
    let n = b0 * 65536 + b1 * 256 + b2;
    assert(n / 256 == b0 * 256 + b1);
}

proof fn lemma_group_round_trip(head: Seq<u8>, rest: Seq<char>)
    requires
        1 <= head.len() <= 3,
    ensures
        base64_bytes(base64_group(head) + rest) == head + base64_bytes(rest),
{
    let text = base64_group(head) + rest;
    assert(text.skip(4) =~= rest);
    let b0 = head[0] as int;
    let b1 = if head.len() > 1 {
        head[1] as int
    } else {
        0
    };
    let b2 = if head.len() > 2 {
        head[2] as int
    } else {
        0
    };
    let n = b0 * 65536 + b1 * 256 + b2;
    lemma_group_bytes(b0, b1, b2);
    lemma_group_sum(n);
    lemma_sextet(n / 262144);
    lemma_sextet(n / 4096 % 64);
    lemma_sextet(n / 64 % 64);
    lemma_sextet(n % 64);
    let group = seq![(n / 65536) as u8, (n / 256 % 256) as u8, (n % 256) as u8];
    assert(sextet_value('=') == 0);
    assert(sextet_value(text[2]) == n / 64 % 64);
    assert(sextet_value(text[3]) == n % 64);
    if head.len() == 1 {
        assert(group.take(1) =~= head);
    } else if head.len() == 2 {
        assert(group.take(2) =~= head);
    } else {
        assert(group =~= head);
    }
}

/// Base64 loses nothing: the text stands for exactly the bytes it was made
/// from, and is four characters long for every three bytes begun.
pub proof fn law_base64_stands_for_its_bytes(data: Seq<u8>)
    ensures
        base64_bytes(base64_text(data)) == data,
        base64_text(data).len() == (data.len() + 2) / 3 * 4,
    decreases data.len(),
{
    if data.len() == 0 {
    } else if data.len() <= 3 {
        lemma_group_round_trip(data, Seq::empty());
        assert(base64_group(data) + Seq::<char>::empty() =~= base64_text(data));
        assert(data + Seq::<u8>::empty() =~= data);
    } else {
        law_base64_stands_for_its_bytes(data.skip(3));
        lemma_group_round_trip(data.take(3), base64_text(data.skip(3)));
        assert(data.take(3) + data.skip(3) =~= data);
    }
}

/// The bytes that percent-encoded bytes stand for: `%` and two hexadecimal
/// digits are one byte, and everything else is itself.
pub open spec fn percent_bytes(b: Seq<u8>) -> Seq<u8>
    decreases b.len(),
{
    if b.len() == 0 {
        Seq::empty()
    } else if b[0] == 0x25 && b.len() > 2 && hex_value(b[1]) is Some && hex_value(b[2]) is Some {
        seq![(hex_value(b[1])->0 * 16 + hex_value(b[2])->0) as u8] + percent_bytes(b.skip(3))
    } else {
        seq![b[0]] + percent_bytes(b.skip(1))
    }
}

/// Undoes percent-encoding; bytes that are not UTF-8 afterwards are replaced.
pub fn percent_decode(s: &str) -> (r: String)
    ensures
        r@ == as_text(percent_bytes(encode_utf8(s@))),
{
    let b = s.as_bytes();
    let n: usize = b.len();
    let mut out: Vec<u8> = Vec::new();
    let mut i: usize = 0;
    proof {
        assert(b@.skip(0) =~= b@);
        assert(out@ + percent_bytes(b@) =~= percent_bytes(b@));
    }
    while i < n
        invariant
            i <= n == b@.len(),
            out@ + percent_bytes(b@.skip(i as int)) == percent_bytes(b@),
        decreases n - i,
    {
        let ghost rest = b@.skip(i as int);
        let ghost before = out@;
        if b[i] == 0x25 && n - i > 2 {
            if let (Some(h), Some(l)) = (hex(b[i + 1]), hex(b[i + 2])) {
                out.push(h * 16 + l);
                proof {
                    assert(rest.skip(3) =~= b@.skip(i + 3));
                    let c = (hex_value(rest[1])->0 * 16 + hex_value(rest[2])->0) as u8;
                    assert(c == h * 16 + l);
                    assert(before + (seq![c] + percent_bytes(rest.skip(3))) =~= before.push(c)
                        + percent_bytes(rest.skip(3)));
                }
                i = i + 3;
                continue;
            }
        }
        out.push(b[i]);
        proof {
            assert(rest.skip(1) =~= b@.skip(i + 1));
            assert(before + (seq![rest[0]] + percent_bytes(rest.skip(1))) =~= before.push(rest[0])
                + percent_bytes(rest.skip(1)));
        }
        i = i + 1;
    }
    proof {
        assert(b@.skip(i as int) =~= Seq::<u8>::empty());
        assert(out@ + Seq::<u8>::empty() =~= out@);
    }
    decode_lossy(out.as_slice())
}

proof fn lemma_percent_free(b: Seq<u8>)
    requires
        forall|i: int| 0 <= i < b.len() ==> b[i] != 0x25,
    ensures
        percent_bytes(b) == b,
    decreases b.len(),
{
    if b.len() > 0 {
        lemma_percent_free(b.skip(1));
        assert(seq![b[0]] + b.skip(1) =~= b);
    }
}

/// A text whose bytes hold no percent sign decodes to itself.
pub proof fn law_percent_decoding_leaves_plain_text_alone(s: Seq<char>)
    requires
        forall|i: int| 0 <= i < encode_utf8(s).len() ==> encode_utf8(s)[i] != 0x25,
    ensures
        as_text(percent_bytes(encode_utf8(s))) == s,
{
    lemma_percent_free(encode_utf8(s));
    vstd::utf8::encode_utf8_valid_utf8(s);
    vstd::utf8::encode_utf8_decode_utf8(s);
}

/// Every byte written as an escape.
pub open spec fn escaped(b: Seq<u8>) -> Seq<u8>
    decreases b.len(),
{
    if b.len() == 0 {
        Seq::empty()
    } else {
        seq![0x25u8, escape_digit((b[0] / 16) as int), escape_digit((b[0] % 16) as int)] + escaped(
            b.skip(1),
        )
    }
}

/// The digit of an escape for a value below sixteen.
pub open spec fn escape_digit(n: int) -> u8 {
    if n < 10 {
        (0x30 + n) as u8
    } else {
        (0x41 + n - 10) as u8
    }
}

/// Decoding gives back what was escaped, byte for byte.
pub proof fn law_escapes_decode_to_their_bytes(b: Seq<u8>)
    ensures
        percent_bytes(escaped(b)) == b,
    decreases b.len(),
{
    if b.len() > 0 {
        law_escapes_decode_to_their_bytes(b.skip(1));
        let e = escaped(b);
        let hi = (b[0] / 16) as int;
        let lo = (b[0] % 16) as int;
        assert(e.skip(3) =~= escaped(b.skip(1)));
        assert(hex_value(escape_digit(hi)) == Some(hi));
        assert(hex_value(escape_digit(lo)) == Some(lo));
        assert((hi * 16 + lo) as u8 == b[0]);
        assert(seq![b[0]] + b.skip(1) =~= b);
    }
}

/// The alphabet runs through the capital letters, the small letters and the
/// digits, and ends with `+` and `/`.
pub proof fn law_the_base64_alphabet(n: int)
    requires
        0 <= n < 64,
    ensures
        n < 26 ==> sextet_char(n) as int == 'A' as int + n,
        26 <= n < 52 ==> sextet_char(n) as int == 'a' as int + n - 26,
        52 <= n < 62 ==> sextet_char(n) as int == '0' as int + n - 52,
        sextet_char(62) == '+',
        sextet_char(63) == '/',
        sextet_value(sextet_char(n)) == n,
{
    lemma_sextet(n);
}

/// Three bytes are four characters, which hold their bits from the highest to
/// the lowest, six at a time; where bytes are missing at the end, the last
/// characters are padding.
pub proof fn law_three_bytes_are_four_characters(a: u8, b: u8, c: u8, rest: Seq<u8>)
    ensures
        ({
            let n = a as int * 65536 + b as int * 256 + c as int;
            &&& base64_text(seq![a, b, c] + rest) == seq![
                sextet_char(n / 262144),
                sextet_char(n / 4096 % 64),
                sextet_char(n / 64 % 64),
                sextet_char(n % 64),
            ] + base64_text(rest)
        }),
        base64_text(seq![a]).len() == 4 && base64_text(seq![a])[2] == '=' && base64_text(
            seq![a],
        )[3] == '=',
        base64_text(seq![a, b]).len() == 4 && base64_text(seq![a, b])[3] == '=' && base64_text(
            seq![a, b],
        )[2] != '=',
        base64_text(Seq::<u8>::empty()).len() == 0,
{
    let whole = seq![a, b, c] + rest;
    let head = seq![a, b, c];
    if rest.len() == 0 {
        assert(whole =~= head);
        assert(base64_text(rest) =~= Seq::<char>::empty());
        assert(base64_group(head) + base64_text(rest) =~= base64_group(head));
    } else {
        assert(whole.take(3) =~= head);
        assert(whole.skip(3) =~= rest);
    }
    let m = a as int * 65536 + b as int * 256;
    lemma_group_bytes(a as int, b as int, 0);
    lemma_group_sum(m);
    lemma_sextet(m / 64 % 64);
}

/// An escape is a percent sign and two hexadecimal digits and stands for one
/// byte; anything else stands for itself.
pub proof fn law_only_escapes_are_decoded(c: u8, h: u8, l: u8, rest: Seq<u8>)
    ensures
        hex_value(h) is Some && hex_value(l) is Some ==> percent_bytes(seq![0x25u8, h, l] + rest)
            == seq![(hex_value(h)->0 * 16 + hex_value(l)->0) as u8] + percent_bytes(rest),
        c != 0x25 ==> percent_bytes(seq![c] + rest) == seq![c] + percent_bytes(rest),
        rest.len() < 2 || hex_value(rest[0]) is None || hex_value(rest[1]) is None
            ==> percent_bytes(seq![0x25u8] + rest) == seq![0x25u8] + percent_bytes(rest),
        percent_bytes(Seq::<u8>::empty()).len() == 0,
{
    let a = seq![0x25u8, h, l] + rest;
    assert(a.skip(3) =~= rest);
    assert(a[1] == h && a[2] == l);
    assert((seq![c] + rest).skip(1) =~= rest);
    let b = seq![0x25u8] + rest;
    assert(b.skip(1) =~= rest);
    if rest.len() >= 2 {
        assert(b[1] == rest[0] && b[2] == rest[1]);
    }
}

/// The digits of an escape are the hexadecimal ones.
pub proof fn law_escape_digits_are_hexadecimal(n: int, b: u8, rest: Seq<u8>)
    requires
        0 <= n < 16,
    ensures
        hex_value(escape_digit(n)) == Some(n),
        escaped(seq![b] + rest) == seq![
            0x25u8,
            escape_digit((b / 16) as int),
            escape_digit((b % 16) as int),
        ] + escaped(rest),
{
    assert((seq![b] + rest).skip(1) =~= rest);
}

} // verus!
